use sim::balance::value;
use sim::defs::BalanceSeed;

#[test]
fn value_reads_a_present_key() {
    let balance = [BalanceSeed {
        key: "a.b",
        value: 42,
        min: 0,
        max: 100,
    }];
    assert_eq!(value(&balance, "a.b"), 42);
}

#[test]
fn value_reads_the_first_seed_carrying_the_key() {
    let balance = [
        BalanceSeed { key: "x", value: 1, min: 0, max: 9 },
        BalanceSeed { key: "a.b", value: 5, min: 0, max: 9 },
        BalanceSeed { key: "a.b", value: 6, min: 0, max: 9 },
    ];
    assert_eq!(value(&balance, "a.b"), 5);
}
