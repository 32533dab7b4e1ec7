use melscan::chain::{base_fee, denom_to_bytes, price_is_inverted};
use melscan::structs::{Denom, HashVal};

fn hash(tag: u8) -> HashVal {
    HashVal { bytes: [tag; 32] }
}

fn outside(denom: Denom) -> melstructs::Denom {
    melstructs::Denom::from_bytes(&denom_to_bytes(denom)).unwrap()
}

#[test]
fn denominations_have_the_bytes_of_the_chain() {
    assert_eq!(denom_to_bytes(Denom::Mel), b"m".to_vec());
    assert_eq!(denom_to_bytes(Denom::Sym), b"s".to_vec());
    assert_eq!(denom_to_bytes(Denom::Erg), b"d".to_vec());
    assert_eq!(denom_to_bytes(Denom::NewCoin), Vec::<u8>::new());
    assert_eq!(denom_to_bytes(Denom::Custom(hash(0x61))), vec![0x61; 32]);
    assert_eq!(outside(Denom::Mel), melstructs::Denom::Mel);
    assert_eq!(outside(Denom::Erg), melstructs::Denom::Erg);
    assert_eq!(outside(Denom::NewCoin), melstructs::Denom::NewCustom);
}

#[test]
fn price_is_inverted_where_from_is_the_left_of_the_pool() {
    let all = [
        Denom::Mel,
        Denom::Sym,
        Denom::Erg,
        Denom::NewCoin,
        Denom::Custom(hash(0x01)),
        Denom::Custom(hash(0x6d)),
        Denom::Custom(hash(0xf0)),
    ];
    for from in all {
        for to in all {
            if from == to {
                continue;
            }
            let left = melstructs::PoolKey::new(outside(from), outside(to)).left();
            assert_eq!(price_is_inverted(from, to), left == outside(from));
            assert_ne!(price_is_inverted(from, to), price_is_inverted(to, from));
        }
    }
    // "d" < "m" < "s": ERG is the left of MEL/ERG, MEL is the left of MEL/SYM
    assert!(!price_is_inverted(Denom::Mel, Denom::Erg));
    assert!(price_is_inverted(Denom::Mel, Denom::Sym));
    // the empty bytes come before all others
    assert!(price_is_inverted(Denom::NewCoin, Denom::Custom(hash(0))));
    // 32 bytes of "m" come after the single "m"
    assert!(price_is_inverted(Denom::Mel, Denom::Custom(hash(0x6d))));
}

#[test]
fn base_fee_scales_weight_by_the_multiplier() {
    assert_eq!(base_fee(1000, 65536, 0), 1000);
    assert_eq!(base_fee(1000, 131072, 0), 2000);
    assert_eq!(base_fee(1000, 32768, 50), 525);
    assert_eq!(base_fee(3, 1, 0), 0);
    assert_eq!(base_fee(u128::MAX, 2, 0), u128::MAX >> 16);
    assert_eq!(base_fee(u128::MAX, 1, 7), u128::MAX >> 16);
    assert_eq!(base_fee(0, u128::MAX, 0), 0);
}
