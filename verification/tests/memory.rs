use pragmatic::fault::Fault;
use pragmatic::memory::{Label, Store};

#[test]
fn no_read_up() {
    let mut s = Store::new();
    s.write("secret", Label::High, "hunter2", Label::High)
        .unwrap();
    assert!(s.read("secret", Label::Low).is_err());
    assert!(s.read("secret", Label::High).is_ok());
}

#[test]
fn no_write_down() {
    let mut s = Store::new();
    // A High-running writer must not create Low-visible cells.
    assert!(s.write("leak", Label::Low, "secret!", Label::High).is_err());
    assert!(s.write("ok", Label::High, "secret!", Label::High).is_ok());
    assert!(s.low_view().is_empty());
}

#[test]
fn low_view_only_shows_low() {
    let mut s = Store::new();
    s.write("public", Label::Low, "hello", Label::Low).unwrap();
    s.write("secret", Label::High, "shh", Label::Low).unwrap(); // write-up is fine
    let view = s.low_view();
    assert_eq!(view.len(), 1);
    assert_eq!(view[0].0, "public");
}

#[test]
fn labels_form_a_lattice() {
    assert!(Label::Low.flows_to(Label::High));
    assert!(!Label::High.flows_to(Label::Low));
    assert!(Label::Low.flows_to(Label::Low));
    assert_eq!(Label::Low.join(Label::High), Label::High);
    assert_eq!(Label::Low.join(Label::Low), Label::Low);
}

#[test]
fn a_read_gives_back_the_last_write() {
    let mut s = Store::new();
    s.write("k", Label::Low, "one", Label::Low).unwrap();
    s.write("k", Label::Low, "two", Label::Low).unwrap();
    assert_eq!(s.read("k", Label::Low).unwrap().as_str(), "two");
    assert_eq!(s.len(), 1);
    assert!(!s.is_empty());
}

#[test]
fn a_missing_cell_is_a_fault() {
    assert_eq!(
        Store::new().read("nothing", Label::High).unwrap_err(),
        Fault::ToolErr("memory: no cell 'nothing'".into())
    );
}

#[test]
fn denials_name_the_cell_and_the_labels() {
    let mut s = Store::new();
    s.write("secret", Label::High, "x", Label::High).unwrap();
    assert_eq!(
        s.read("secret", Label::Low).unwrap_err(),
        Fault::CapabilityDenied("memory: read-up denied on 'secret' (High ⋢ Low)".into())
    );
    assert_eq!(
        s.write("leak", Label::Low, "x", Label::High).unwrap_err(),
        Fault::CapabilityDenied("memory: write-down denied on 'leak' (High ⋢ Low)".into())
    );
}

#[test]
fn high_writes_leave_the_low_view_alone() {
    let mut s = Store::new();
    s.write("b", Label::Low, "2", Label::Low).unwrap();
    s.write("a", Label::Low, "1", Label::Low).unwrap();
    let before: Vec<String> = s.low_view().iter().map(|c| c.0.to_string()).collect();
    s.write("ab", Label::High, "x", Label::High).unwrap();
    let after: Vec<String> = s.low_view().iter().map(|c| c.0.to_string()).collect();
    assert_eq!(before, vec!["a", "b"]);
    assert_eq!(after, before);
}

#[test]
fn low_readers_cannot_tell_secrets_apart() {
    let build = |secret: &str| {
        let mut s = Store::new();
        s.write("public", Label::Low, "p", Label::Low).unwrap();
        s.write("secret", Label::High, secret, Label::High).unwrap();
        s
    };
    let (a, b) = (build("one"), build("two"));
    for key in ["public", "secret", "absent"] {
        assert_eq!(a.read(key, Label::Low), b.read(key, Label::Low));
    }
}
