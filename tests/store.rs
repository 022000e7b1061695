use bthome_metrics::object::{Kind, Object};
use bthome_metrics::pipeline::updates_for;
use bthome_metrics::store::{Metrics, STALE_AFTER_SECS};
use bthome_metrics::update::Update;

fn upd(name: &str, o: Object) -> Update {
    Update::new(name.to_string(), o)
}

#[test]
fn same_kind_replaces() {
    let mut m = Metrics::new();
    m.ingest(upd("D1", Object::Temperature(2000)), 1);
    m.ingest(upd("D1", Object::Temperature(2150)), 2);
    let d = m.lookup(&"D1".to_string()).unwrap();
    assert_eq!(d.objects, vec![Object::Temperature(2150)]);
    assert_eq!(d.last_update, 2);
}

#[test]
fn distinct_kinds_accumulate() {
    let mut m = Metrics::new();
    m.ingest(upd("D1", Object::Temperature(2000)), 1);
    m.ingest(upd("D1", Object::Humidity(4000)), 1);
    let d = m.lookup(&"D1".to_string()).unwrap();
    assert_eq!(d.objects.len(), 2);
    assert_ne!(d.objects[0].kind(), d.objects[1].kind());
    assert!(d.objects.contains(&Object::Temperature(2000)));
    assert!(d.objects.contains(&Object::Humidity(4000)));
}

#[test]
fn get_and_put_keep_one_per_kind() {
    let mut m = Metrics::new();
    m.get("X".to_string(), 5).put(Object::Battery(10));
    m.get("X".to_string(), 6).put(Object::Power(true));
    m.get("X".to_string(), 7).put(Object::Battery(9));
    let d = m.lookup(&"X".to_string()).unwrap();
    assert_eq!(d.objects, vec![Object::Power(true), Object::Battery(9)]);
    assert_eq!(d.last_update, 7);
    assert_eq!(m.len(), 1);
}

#[test]
fn unknown_device_is_absent() {
    let m = Metrics::new();
    assert!(m.lookup(&"nobody".to_string()).is_none());
    assert_eq!(m.len(), 0);
}

#[test]
fn stale_device_is_evicted() {
    let mut m = Metrics::new();
    m.ingest(upd("old", Object::Battery(1)), 100);
    m.ingest(upd("new", Object::Battery(2)), 350);
    m.evict(400, STALE_AFTER_SECS);
    assert!(m.lookup(&"old".to_string()).is_none());
    assert!(m.lookup(&"new".to_string()).is_some());
    assert_eq!(m.len(), 1);
}

#[test]
fn eviction_boundary_is_exclusive() {
    let mut m = Metrics::new();
    m.ingest(upd("a", Object::Battery(1)), 100);
    m.ingest(upd("b", Object::Battery(1)), 101);
    m.evict(400, 300);
    assert!(m.lookup(&"a".to_string()).is_none());
    assert!(m.lookup(&"b".to_string()).is_some());
}

#[test]
fn update_after_sweep_is_kept() {
    let mut m = Metrics::new();
    m.ingest(upd("a", Object::Battery(1)), 0);
    m.evict(1000, 300);
    assert_eq!(m.len(), 0);
    m.ingest(upd("a", Object::Battery(3)), 1001);
    m.evict(1060, 300);
    assert_eq!(m.lookup(&"a".to_string()).unwrap().objects, vec![Object::Battery(3)]);
}

#[test]
fn update_refreshes_last_seen() {
    let mut m = Metrics::new();
    m.ingest(upd("a", Object::Battery(1)), 0);
    m.ingest(upd("a", Object::Humidity(1)), 250);
    m.evict(400, 300);
    assert_eq!(m.lookup(&"a".to_string()).unwrap().objects.len(), 2);
}

#[test]
fn clock_behind_last_seen_keeps_device() {
    let mut m = Metrics::new();
    m.ingest(upd("a", Object::Battery(1)), 500);
    m.evict(400, 300);
    assert!(m.lookup(&"a".to_string()).is_some());
}

#[test]
fn worked_example_renders_two_lines() {
    let mut m = Metrics::new();
    for u in updates_for(&"D1".to_string(), &[0x40, 0x01, 0x64, 0x02, 0xCA, 0x09], None) {
        m.ingest(u, 1);
    }
    let text = m.render();
    let lines: Vec<&str> = text.lines().collect();
    assert_eq!(lines.len(), 2);
    assert!(lines.contains(&"bthome_battery{name=\"D1\"} 100"));
    assert!(lines.contains(&"bthome_temperature{name=\"D1\"} 25.06"));
}

#[test]
fn values_render_in_their_units() {
    let mut m = Metrics::new();
    m.ingest(upd("s", Object::Temperature(-525)), 0);
    m.ingest(upd("s", Object::Humidity(4550)), 0);
    m.ingest(upd("s", Object::Voltage(3012)), 0);
    m.ingest(upd("s", Object::Power(true)), 0);
    m.ingest(upd("s", Object::Rssi(-70)), 0);
    m.ingest(upd("t", Object::Temperature(-5)), 0);
    m.ingest(upd("t", Object::Power(false)), 0);
    m.ingest(upd("t", Object::Voltage(7)), 0);
    m.ingest(upd("t", Object::Battery(0)), 0);
    let text = m.render();
    let lines: Vec<&str> = text.lines().collect();
    assert_eq!(lines.len(), 9);
    for want in [
        "bthome_temperature{name=\"s\"} -5.25",
        "bthome_humidity{name=\"s\"} 45.5",
        "bthome_voltage{name=\"s\"} 3.012",
        "bthome_power{name=\"s\"} 1",
        "bthome_rssi{name=\"s\"} -70",
        "bthome_temperature{name=\"t\"} -0.05",
        "bthome_power{name=\"t\"} 0",
        "bthome_voltage{name=\"t\"} 0.007",
        "bthome_battery{name=\"t\"} 0",
    ] {
        assert!(lines.contains(&want), "missing {want}");
    }
}

#[test]
fn empty_store_renders_nothing() {
    assert_eq!(Metrics::new().render(), "");
}

#[test]
fn render_is_stable() {
    let mut m = Metrics::new();
    m.ingest(upd("a", Object::Battery(1)), 0);
    m.ingest(upd("b", Object::Battery(2)), 0);
    assert_eq!(m.render(), m.render());
}

#[test]
fn updates_carry_name_and_signal_strength() {
    let u = updates_for(&"dev".to_string(), &[0x40, 0x01, 0x64], Some(-60));
    assert_eq!(u.len(), 2);
    assert_eq!(u[0].name, "dev");
    assert_eq!(u[0].object, Object::Battery(100));
    assert_eq!(u[1].object, Object::Rssi(-60));
    assert_eq!(u[1].object.kind(), Kind::Rssi);
    let none = updates_for(&"dev".to_string(), &[0x41, 0x01, 0x64], None);
    assert!(none.is_empty());
}

#[test]
fn snapshot_copies_every_record() {
    let mut m = Metrics::new();
    m.ingest(upd("a", Object::Battery(1)), 3);
    m.ingest(upd("b", Object::Power(false)), 4);
    m.ingest(upd("a", Object::Battery(2)), 5);
    let snap = m.snapshot();
    assert_eq!(snap.len(), 2);
    assert!(snap.contains(&("a".to_string(), 5, vec![Object::Battery(2)])));
    assert!(snap.contains(&("b".to_string(), 4, vec![Object::Power(false)])));
    m.evict(1000, 300);
    assert_eq!(snap.len(), 2);
    assert!(m.snapshot().is_empty());
}

#[test]
fn values_render_as_shortest_decimals() {
    let mut m = Metrics::new();
    for u in updates_for(&"D1".to_string(), &[0x40, 0x02, 0x18, 0xFC], None) {
        m.ingest(u, 0);
    }
    assert_eq!(m.render(), "bthome_temperature{name=\"D1\"} -10\n");
    let mut m = Metrics::new();
    m.ingest(upd("a", Object::Temperature(2000)), 0);
    m.ingest(upd("b", Object::Temperature(2150)), 0);
    m.ingest(upd("c", Object::Voltage(3000)), 0);
    m.ingest(upd("d", Object::Voltage(3100)), 0);
    m.ingest(upd("e", Object::Humidity(0)), 0);
    m.ingest(upd("f", Object::Temperature(-2506)), 0);
    let text = m.render();
    let lines: Vec<&str> = text.lines().collect();
    for want in [
        "bthome_temperature{name=\"a\"} 20",
        "bthome_temperature{name=\"b\"} 21.5",
        "bthome_voltage{name=\"c\"} 3",
        "bthome_voltage{name=\"d\"} 3.1",
        "bthome_humidity{name=\"e\"} 0",
        "bthome_temperature{name=\"f\"} -25.06",
    ] {
        assert!(lines.contains(&want), "missing {want}");
    }
}
