use spellvm::sigil::Sigil;
use spellvm::sigil::Sigils;
use std::sync::Arc;

fn name(text: &str) -> Arc<[u8]> {
    Arc::from(text.as_bytes())
}

#[test]
fn test_name() {
    let mut sigils = Sigils::new();
    let name = Arc::from("foo".as_bytes());
    let sigil = sigils.intern(&name);
    assert_eq!(sigils.name(sigil), Some(&name));
}

#[test]
fn test_identity() {
    let mut sigils = Sigils::new();

    let name_a = Arc::from("foo".as_bytes());
    let name_b = Arc::from("bar".as_bytes());

    let sigil_a_1 = sigils.intern(&name_a);
    let sigil_a_2 = sigils.intern(&name_a);
    let sigil_b = sigils.intern(&name_b);

    assert_eq!(sigil_a_1, sigil_a_2);
    assert_ne!(sigil_a_1, sigil_b);
    assert_ne!(sigil_a_2, sigil_b);
}

#[test]
fn sigils_are_handed_out_in_sequence() {
    let mut sigils = Sigils::new();
    assert_eq!(sigils.len(), 0);
    assert_eq!(sigils.intern(&name("foo")), Sigil(0));
    assert_eq!(sigils.intern(&name("bar")), Sigil(1));
    assert_eq!(sigils.intern(&name("foo")), Sigil(0));
    assert_eq!(sigils.intern(&name("baz")), Sigil(2));
    assert_eq!(sigils.len(), 3);
}

#[test]
fn identity_goes_by_bytes_not_by_allocation() {
    let mut sigils = Sigils::new();
    let first = name("wand");
    let second = name("wand");
    assert!(!Arc::ptr_eq(&first, &second));
    assert_eq!(sigils.intern(&first), sigils.intern(&second));
    assert_eq!(sigils.len(), 1);
}

#[test]
fn name_of_a_foreign_sigil_is_absent() {
    let mut sigils = Sigils::new();
    assert_eq!(sigils.name(Sigil(0)), None);
    let sigil = sigils.intern(&name("foo"));
    assert_eq!(sigils.name(sigil), Some(&name("foo")));
    assert_eq!(sigils.name(Sigil(1)), None);
    assert_eq!(sigils.name(Sigil(u32::MAX)), None);
}

#[test]
fn interning_the_name_of_a_sigil_gives_the_sigil() {
    let mut sigils = Sigils::new();
    for text in ["a", "b", "c", "d"] {
        sigils.intern(&name(text));
    }
    for id in 0..4 {
        let stored = sigils.name(Sigil(id)).unwrap().clone();
        assert_eq!(sigils.intern(&stored), Sigil(id));
    }
    assert_eq!(sigils.len(), 4);
}

#[test]
fn names_are_arbitrary_bytes() {
    let mut sigils = Sigils::new();
    let empty: Arc<[u8]> = Arc::from(&[][..]);
    let zero: Arc<[u8]> = Arc::from(&[0u8][..]);
    let zeros: Arc<[u8]> = Arc::from(&[0u8, 0u8][..]);
    let high: Arc<[u8]> = Arc::from(&[255u8, 254u8][..]);
    assert_eq!(sigils.intern(&empty), Sigil(0));
    assert_eq!(sigils.intern(&zero), Sigil(1));
    assert_eq!(sigils.intern(&zeros), Sigil(2));
    assert_eq!(sigils.intern(&high), Sigil(3));
    assert_eq!(sigils.intern(&empty), Sigil(0));
    assert_eq!(sigils.name(Sigil(2)), Some(&zeros));
}

#[test]
fn find_does_not_create() {
    let mut sigils = Sigils::new();
    assert_eq!(sigils.find(&name("foo")), None);
    assert_eq!(sigils.len(), 0);
    let sigil = sigils.intern(&name("foo"));
    assert_eq!(sigils.find(&name("foo")), Some(sigil));
    assert_eq!(sigils.find(&name("fo")), None);
    assert_eq!(sigils.find(&name("foo ")), None);
    assert_eq!(sigils.len(), 1);
}

#[test]
fn many_names_keep_their_sigils() {
    let mut sigils = Sigils::new();
    let names: Vec<Arc<[u8]>> = (0..2000u32).map(|i| name(&format!("name-{}", i))).collect();
    for (i, n) in names.iter().enumerate() {
        assert_eq!(sigils.intern(n), Sigil(i as u32));
    }
    for (i, n) in names.iter().enumerate() {
        assert_eq!(sigils.intern(n), Sigil(i as u32));
        assert_eq!(sigils.name(Sigil(i as u32)), Some(n));
    }
    assert_eq!(sigils.len(), 2000);
}
