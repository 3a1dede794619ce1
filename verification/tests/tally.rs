use signet::session::{Outcome, Reject};
use signet::tally::Tally;

#[test]
fn tally_counts_each_fate_of_a_beacon() {
    let mut t = Tally::new();
    t.record(None);
    t.record(Some(Outcome::Rejected(Reject::TooLate)));
    t.record(Some(Outcome::Accepted {
        buffered: true,
        merged: 0,
        failed_mac: 0,
    }));
    t.record(Some(Outcome::Accepted {
        buffered: false,
        merged: 3,
        failed_mac: 1,
    }));
    assert_eq!(
        t,
        Tally {
            sent: 4,
            dropped: 1,
            merged: 3,
            refused: 1
        }
    );
}

#[test]
fn tally_saturates_instead_of_wrapping() {
    let mut t = Tally {
        sent: u64::MAX,
        dropped: u64::MAX,
        merged: u64::MAX - 1,
        refused: 0,
    };
    t.record(None);
    t.record(Some(Outcome::Accepted {
        buffered: false,
        merged: 5,
        failed_mac: 0,
    }));
    assert_eq!(t.sent, u64::MAX);
    assert_eq!(t.dropped, u64::MAX);
    assert_eq!(t.merged, u64::MAX);
}
