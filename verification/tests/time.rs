use ductile::time::{civil_from_days, fmt_ts_cst};

#[test]
fn epoch_and_known_dates() {
    assert_eq!(civil_from_days(0), (1970, 1, 1));
    assert_eq!(civil_from_days(19_723), (2024, 1, 1));
    assert_eq!(civil_from_days(19_782), (2024, 2, 29));
}

#[test]
fn cst_formatting_roundtrip() {
    let s = fmt_ts_cst(1_789_171_200, "T", true);
    assert!(s.starts_with("2026-09-12T08:00:00"), "got {}", s);
    let s2 = fmt_ts_cst(1_789_171_200 + 3661, " ", false);
    assert!(s2.starts_with("2026-09-12 09:01"), "got {}", s2);
    assert_eq!(fmt_ts_cst(-8 * 3600 - 1, "T", true), "?");
    assert_eq!(fmt_ts_cst(-8 * 3600, "T", true), "1970-01-01T00:00:00");
}

#[test]
fn now_ts_shape() {
    let secs = std::time::SystemTime::now()
        .duration_since(std::time::UNIX_EPOCH)
        .map(|d| d.as_secs() as i64)
        .unwrap_or(0);
    let s = fmt_ts_cst(secs, "T", true);
    assert_eq!(s.len(), 19, "YYYY-MM-DDTHH:MM:SS = 19 chars, got {}", s);
    assert!(s.as_bytes()[10] == b'T');
}

#[test]
fn days_before_the_epoch() {
    assert_eq!(civil_from_days(-1), (1969, 12, 31));
    assert_eq!(civil_from_days(-719_468), (0, 3, 1));
    assert_eq!(civil_from_days(-719_469), (0, 2, 29));
    assert_eq!(civil_from_days(-146_097 - 719_468), (-400, 3, 1));
}

#[test]
fn dates_follow_each_other() {
    let mut last = civil_from_days(-1000);
    for z in -999..40_000 {
        let next = civil_from_days(z);
        assert_ne!(last, next);
        assert!(next.2 == last.2 + 1 || next.2 == 1);
        last = next;
    }
    assert_eq!(civil_from_days(11_016), (2000, 2, 29));
    assert_eq!(civil_from_days(47_541), (2100, 3, 1));
}
