use bthome_metrics::dedup::Dedup;
use bthome_metrics::object::Object;
use bthome_metrics::update::Update;

fn run(items: &[Object]) -> Vec<Object> {
    let mut d = Dedup::new();
    let mut out = vec![];
    for o in items {
        if d.offer(*o) {
            out.push(d.last().unwrap());
        }
    }
    out
}

#[test]
fn first_of_each_run_passes() {
    let t = |v| Object::Temperature(v);
    let r = run(&[t(1), t(1), t(2), t(2), t(2), t(3), t(1), t(1)]);
    assert_eq!(r, vec![t(1), t(2), t(3), t(1)]);
}

#[test]
fn no_adjacent_repeats_passes_whole() {
    let items = [Object::Battery(1), Object::Battery(2), Object::Power(true), Object::Battery(2)];
    assert_eq!(run(&items), items.to_vec());
}

#[test]
fn empty_sequence_gives_nothing() {
    assert_eq!(run(&[]), vec![]);
}

#[test]
fn first_item_always_passes() {
    let mut d = Dedup::new();
    assert!(d.last().is_none());
    assert!(d.offer(Object::Rssi(-40)));
    assert_eq!(*d.last(), Some(Object::Rssi(-40)));
    assert!(!d.offer(Object::Rssi(-40)));
    assert_eq!(*d.last(), Some(Object::Rssi(-40)));
    assert!(d.offer(Object::Rssi(-41)));
}

#[test]
fn updates_compare_by_name_and_reading() {
    let mut d = Dedup::new();
    assert!(d.offer(Update::new("a".to_string(), Object::Battery(5))));
    assert!(!d.offer(Update::new("a".to_string(), Object::Battery(5))));
    assert!(d.offer(Update::new("b".to_string(), Object::Battery(5))));
    assert!(d.offer(Update::new("b".to_string(), Object::Battery(6))));
    assert_eq!(d.last().as_ref().unwrap().name, "b");
}
