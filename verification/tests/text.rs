use melscan::flows::{net_flows, tips, NetFlow};
use melscan::hexcode::HexError;
use melscan::html::{friendly_denom, tidy_opcode, InfoBubble, MicroUnit, RenderTimeTracer, ToolTips};
use melscan::parse::{decode_hex, parse_coinid, parse_hash, CoinIdError, HashError};
use melscan::structs::{CoinData, CoinID, Denom, HashVal};
use melscan::tally::tally;

fn hash(tag: u8) -> HashVal {
    HashVal { bytes: [tag; 32] }
}

#[test]
fn hash_text_is_lower_case_hex() {
    let mut bytes = [0u8; 32];
    for (i, b) in bytes.iter_mut().enumerate() {
        *b = (i as u8) * 8 + 7;
    }
    let h = HashVal { bytes };
    assert_eq!(h.to_hex(), "070f171f272f373f474f575f676f777f878f979fa7afb7bfc7cfd7dfe7eff7ff");
    assert_eq!(h.to_short_hex(), "070f171f27");
    assert_eq!(hash(0xab).to_hex(), "ab".repeat(32));
}

#[test]
fn hash_is_read_back_from_its_text() {
    let text = "070f171f272f373f474f575f676f777f878f979fa7afb7bfc7cfd7dfe7eff7ff";
    let h = parse_hash(&text.as_bytes().to_vec()).unwrap();
    assert_eq!(h.to_hex(), text);
    let upper = parse_hash(&text.to_uppercase().as_bytes().to_vec()).unwrap();
    assert_eq!(upper, h);
}

#[test]
fn hash_text_errors() {
    assert_eq!(parse_hash(&b"abc".to_vec()), Err(HashError::BadHex(HexError::OddLength)));
    assert_eq!(
        parse_hash(&b"abxd".to_vec()),
        Err(HashError::BadHex(HexError::InvalidHexCharacter { index: 2 }))
    );
    assert_eq!(parse_hash(&b"abcd".to_vec()), Err(HashError::WrongLength));
    assert_eq!(parse_hash(&b"".to_vec()), Err(HashError::WrongLength));
    assert_eq!(parse_hash(&"ab".repeat(33).into_bytes()), Err(HashError::WrongLength));
}

#[test]
fn coin_name_is_hash_dash_index() {
    let text = format!("{}-7", "1f".repeat(32));
    assert_eq!(parse_coinid(&text), Ok(CoinID { txhash: hash(0x1f), index: 7 }));
    let plus = format!("{}-+255", "1f".repeat(32));
    assert_eq!(parse_coinid(&plus), Ok(CoinID { txhash: hash(0x1f), index: 255 }));
    let zeros = format!("{}-007", "1f".repeat(32));
    assert_eq!(parse_coinid(&zeros), Ok(CoinID { txhash: hash(0x1f), index: 7 }));
}

#[test]
fn coin_name_errors() {
    let h = "1f".repeat(32);
    assert_eq!(parse_coinid(&h), Err(CoinIdError::BadShape));
    assert_eq!(parse_coinid(&format!("{}-1-2", h)), Err(CoinIdError::BadShape));
    assert_eq!(parse_coinid(""), Err(CoinIdError::BadShape));
    assert_eq!(parse_coinid(&format!("{}-", h)), Err(CoinIdError::BadIndex));
    assert_eq!(parse_coinid(&format!("{}-256", h)), Err(CoinIdError::BadIndex));
    assert_eq!(parse_coinid(&format!("{}-+", h)), Err(CoinIdError::BadIndex));
    assert_eq!(parse_coinid(&format!("{}-1a", h)), Err(CoinIdError::BadIndex));
    assert_eq!(parse_coinid("abcd-1"), Err(CoinIdError::BadHash(HashError::WrongLength)));
    assert_eq!(
        parse_coinid("abc-1"),
        Err(CoinIdError::BadHash(HashError::BadHex(HexError::OddLength)))
    );
    assert_eq!(
        parse_coinid("zz-x"),
        Err(CoinIdError::BadHash(HashError::BadHex(HexError::InvalidHexCharacter { index: 0 })))
    );
}

#[test]
fn decode_hex_reads_two_characters_per_byte() {
    assert_eq!(decode_hex("00ff10Ab"), Ok(vec![0, 255, 16, 171]));
    assert_eq!(decode_hex(""), Ok(vec![]));
    // a plus sign may stand for the first digit
    assert_eq!(decode_hex("+f0a"), Ok(vec![15, 10]));
}

#[test]
fn decode_hex_errors() {
    assert_eq!(decode_hex("abc"), Err(HexError::OddLength));
    assert_eq!(decode_hex("zzz"), Err(HexError::InvalidHexCharacter { index: 0 }));
    assert_eq!(decode_hex("00-1"), Err(HexError::InvalidHexCharacter { index: 2 }));
    assert_eq!(decode_hex("0+"), Err(HexError::InvalidHexCharacter { index: 0 }));
    assert_eq!(decode_hex("++"), Err(HexError::InvalidHexCharacter { index: 0 }));
    assert_eq!(decode_hex("é"), Err(HexError::InvalidHexCharacter { index: 0 }));
}

#[test]
fn micro_units_show_six_decimals() {
    assert_eq!(MicroUnit(12_000_345, "MEL".into()).to_string(), "12.000345 MEL");
    assert_eq!(MicroUnit(0, "SYM".into()).to_string(), "0.000000 SYM");
    assert_eq!(MicroUnit(999_999, "ERG".into()).to_string(), "0.999999 ERG");
    assert_eq!(MicroUnit(1_000_000, "".into()).to_string(), "1.000000 ");
    assert_eq!(
        MicroUnit(u128::MAX, "MEL".into()).to_string(),
        "340282366920938463463374607431768.211455 MEL"
    );
}

#[test]
fn denominations_have_friendly_names() {
    assert_eq!(friendly_denom(Denom::Mel), "MEL");
    assert_eq!(friendly_denom(Denom::Sym), "SYM");
    assert_eq!(friendly_denom(Denom::Erg), "ERG");
    assert_eq!(friendly_denom(Denom::NewCoin), "(new denom)");
    assert_eq!(friendly_denom(Denom::Custom(hash(0x5a))), "Custom (5a5a5a5a5a..)");
}

#[test]
fn opcode_text_loses_its_brackets() {
    assert_eq!(tidy_opcode("PushI(5)"), "PushI 5");
    assert_eq!(tidy_opcode("Loop(2, 3)"), "Loop 2  3");
    assert_eq!(tidy_opcode("Add"), "Add");
    assert_eq!(tidy_opcode(""), "");
    assert_eq!(tidy_opcode("é(ü)"), "é ü");
}

#[test]
fn tracer_keeps_its_label() {
    let tracer = RenderTimeTracer::new("homepage");
    assert_eq!(tracer.label, "homepage");
    assert!(tracer.start_time.elapsed().as_secs() < 3600);
}

#[test]
fn tracer_starts_at_the_instant_given() {
    let before = std::time::Instant::now();
    let tracer = RenderTimeTracer::starting_at("block", before);
    assert_eq!(tracer.start_time, before);
    assert_eq!(tracer.label, "block");
    // the clock is read at construction, not before
    let fresh = RenderTimeTracer::new("block");
    assert!(fresh.start_time >= before);
}

#[test]
fn tooltips_hold_their_bubbles() {
    let tips = ToolTips {
        hash: InfoBubble("the hash".into()),
        height: InfoBubble("the height".into()),
        fee_pool: InfoBubble("the pool".into()),
    };
    assert_eq!(tips.hash.0, "the hash");
    assert_eq!(tips.height.0, "the height");
    assert_eq!(tips.fee_pool.0, "the pool");
}

#[test]
fn tally_adds_up_by_key_in_order_of_first_occurrence() {
    let events = vec![(3u8, 10i128), (1, 5), (3, -4), (2, 0), (1, 1)];
    assert_eq!(tally(&events), Some(vec![(3, 6), (1, 6), (2, 0)]));
    assert_eq!(tally::<u8>(&vec![]), Some(vec![]));
}

#[test]
fn tally_reports_overflow_on_the_way() {
    assert_eq!(tally(&vec![(1u8, i128::MAX), (1, 1), (1, -5)]), None);
    assert_eq!(tally(&vec![(1u8, i128::MIN), (1, -1)]), None);
    assert_eq!(tally(&vec![(1u8, i128::MAX), (2, 1), (1, -5)]), Some(vec![(1, i128::MAX - 5), (2, 1)]));
}

fn coin(owner: u8, value: u128, denom: Denom) -> CoinData {
    CoinData { covhash: hash(owner), value, denom, additional_data: vec![] }
}

#[test]
fn net_flows_split_losses_and_gains() {
    let inputs = vec![coin(1, 100, Denom::Mel), coin(1, 9, Denom::Erg), coin(3, 5, Denom::Sym)];
    let outputs = vec![coin(2, 60, Denom::Mel), coin(1, 30, Denom::Mel), coin(3, 5, Denom::Sym)];
    let flows = net_flows(&inputs, &outputs).unwrap();
    // the input in ERG is not looked at: no output has that denomination
    assert_eq!(flows.net_loss, vec![NetFlow { address: hash(1), denom: Denom::Mel, amount: 70 }]);
    assert_eq!(flows.net_gain, vec![NetFlow { address: hash(2), denom: Denom::Mel, amount: 60 }]);
}

#[test]
fn net_flows_refuse_values_beyond_signed_range() {
    assert!(net_flows(&vec![], &vec![coin(1, u128::MAX, Denom::Mel)]).is_none());
    let big = i128::MAX as u128;
    assert!(net_flows(&vec![], &vec![coin(1, big, Denom::Mel), coin(1, 1, Denom::Mel)]).is_none());
    // an input of a denomination without outputs is not converted
    assert!(net_flows(&vec![coin(1, u128::MAX, Denom::Erg)], &vec![coin(1, 1, Denom::Mel)]).is_some());
    assert!(net_flows(&vec![coin(1, u128::MAX, Denom::Mel)], &vec![coin(1, 1, Denom::Mel)]).is_none());
}

#[test]
fn tips_are_the_fee_above_the_base_fee() {
    assert_eq!(tips(10, 3), 7);
    assert_eq!(tips(3, 3), 0);
    assert_eq!(tips(3, 10), 0);
}
