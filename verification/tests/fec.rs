use std::cmp::Ordering;

use mfsk_core::fec::ldpc::bp::{
    bp_decode_generic_kind, bp_decode_kind, bp_decode_nms, AcceptAll, Crc14Check, FnCheck,
    FnRule, InfoCheck, MinSum,
};
use mfsk_core::fec::ldpc::code::{LdpcCode, SystematicEncoder};
use mfsk_core::fec::ldpc::crc::{check_crc14, crc14, LDPC_K};
use mfsk_core::scalar::{LlrScalar, Q11i16};

/// Single precision as a soft value.
#[derive(Clone, Copy, Debug, PartialEq)]
struct Soft(f32);

impl LlrScalar for Soft {
    type Wide = f32;
    type Alpha = f32;

    fn zero_value() -> Soft {
        Soft(0.0)
    }
    fn sentinel_value() -> Soft {
        Soft(f32::INFINITY)
    }
    fn negated(self) -> Soft {
        Soft(-self.0)
    }
    fn magnitude(self) -> Soft {
        Soft(self.0.abs())
    }
    fn negative(self) -> bool {
        self.0 < 0.0
    }
    fn below(self, other: Soft) -> bool {
        self.0 < other.0
    }
    fn alpha_fits(_alpha: f32) -> bool {
        true
    }
    fn scaled(self, alpha: f32) -> Soft {
        Soft(self.0 * alpha)
    }
    fn wide(self) -> f32 {
        self.0
    }
    fn wide_zero_value() -> f32 {
        0.0
    }
    fn wide_sum(a: f32, b: f32) -> f32 {
        a + b
    }
    fn wide_difference(a: f32, b: f32) -> f32 {
        a - b
    }
    fn narrowed(w: f32) -> Soft {
        Soft(w)
    }
    fn wide_positive(w: f32) -> bool {
        w > 0.0
    }
    fn zero() -> Soft {
        Soft(0.0)
    }
    fn pos_inf_like() -> Soft {
        Soft(f32::INFINITY)
    }
    fn neg_sat(self) -> Soft {
        Soft(-self.0)
    }
    fn abs_sat(self) -> Soft {
        Soft(self.0.abs())
    }
    fn is_negative(self) -> bool {
        self.0 < 0.0
    }
    fn cmp_total(self, other: Soft) -> Ordering {
        self.0.partial_cmp(&other.0).unwrap_or(Ordering::Equal)
    }
    fn mul_alpha(self, alpha: f32) -> Soft {
        Soft(self.0 * alpha)
    }
    fn to_wide(self) -> f32 {
        self.0
    }
    fn wide_zero() -> f32 {
        0.0
    }
    fn wide_add(a: f32, b: f32) -> f32 {
        a + b
    }
    fn wide_sub(a: f32, b: f32) -> f32 {
        a - b
    }
    fn from_wide_sat(w: f32) -> Soft {
        Soft(w)
    }
    fn wide_is_positive(w: f32) -> bool {
        w > 0.0
    }
}

/// The tanh rule, as a user of the library would supply it.
fn sum_product(row: &Vec<usize>, incoming: &Vec<Soft>, bit: usize) -> Soft {
    let mut product = 1.0f32;
    for (s, v) in incoming.iter().enumerate() {
        if row[s] != bit {
            product *= (-v.0 / 2.0).tanh();
        }
    }
    Soft(2.0 * (-product).clamp(-0.9999, 0.9999).atanh())
}

/// A code of 174 bits in which check `c` covers information bits chosen by a
/// generator, and one parity bit each closes it. Every bit names three checks.
fn test_code() -> (LdpcCode, SystematicEncoder) {
    let (n, k, checks) = (174usize, 91usize, 83usize);
    let mut rows: Vec<Vec<usize>> = vec![Vec::new(); checks];
    let mut columns: Vec<[usize; 3]> = Vec::new();
    for i in 0..k {
        let a = (i * 7) % checks;
        let b = (i * 11 + 29) % checks;
        let mut c = (i * 31 + 53) % checks;
        while c == a || c == b || a == b && c == a {
            c = (c + 1) % checks;
        }
        let mut b = b;
        while b == a || b == c {
            b = (b + 1) % checks;
        }
        columns.push([a, b, c]);
        for j in [a, b, c] {
            rows[j].push(i);
        }
    }
    let parity: Vec<Vec<usize>> = rows.clone();
    for p in 0..checks {
        rows[p].push(k + p);
        columns.push([p, p, p]);
    }
    (LdpcCode { n, k, rows, columns }, SystematicEncoder { k, parity })
}

/// Information bits of a message with its check.
fn checked_info(seed: u32) -> Vec<u8> {
    let mut state = seed;
    let mut info: Vec<u8> = (0..77)
        .map(|_| {
            state = state.wrapping_mul(0x6C07_8965).wrapping_add(1);
            ((state >> 16) & 1) as u8
        })
        .collect();
    let mut bytes = [0u8; 12];
    for (i, b) in info.iter().enumerate() {
        bytes[i / 8] |= b << (7 - i % 8);
    }
    let crc = crc14(&bytes);
    for k in (0..14).rev() {
        info.push(((crc >> k) & 1) as u8);
    }
    info
}

#[test]
fn crc14_known_vector() {
    assert_eq!(crc14(&[0u8; 12]), 0);
}

#[test]
fn crc14_of_one_bit() {
    assert_eq!(crc14(&[1]), 1);
    assert_eq!(crc14(&[1, 0, 0]), 0x34A5);
    assert_ne!(crc14(b"CQ JA1ABC PM"), 0);
}

#[test]
fn message_check_accepts_its_own_check_only() {
    let info = checked_info(7);
    assert_eq!(info.len(), LDPC_K);
    assert!(check_crc14(&info));
    for i in 0..info.len() {
        let mut broken = info.clone();
        broken[i] ^= 1;
        assert!(!check_crc14(&broken), "bit {i}");
    }
    assert!(Crc14Check.check(&info));
    assert!(AcceptAll.check(&[1, 2, 3]));
}

#[test]
fn decode_perfect_llr_all_zeros() {
    let (code, _) = test_code();
    let llr = [Soft(10.0); 174];
    let _result = bp_decode_kind(&code, &llr, None, 30, &AcceptAll, &FnRule { f: sum_product });
    let zeros = [Soft(-10.0); 174];
    let result = bp_decode_kind(&code, &zeros, None, 30, &AcceptAll, &FnRule { f: sum_product }).unwrap();
    assert!(result.codeword.iter().all(|&b| b == 0));
    assert_eq!(result.iterations, 0);
}

#[test]
fn clean_words_decode_at_once() {
    let (code, encoder) = test_code();
    let word = encoder.encode(&checked_info(3));
    assert_eq!(code.count_failing(&word), 0);
    let llr: Vec<Q11i16> =
        word.iter().map(|&b| Q11i16(if b == 1 { 8000 } else { -8000 })).collect();
    let alpha = 24576;
    let result = bp_decode_nms(&code, &llr, None, 30, &Crc14Check, alpha).unwrap();
    assert_eq!(result.codeword, word);
    assert_eq!(result.info, &word[..91]);
    assert_eq!(&result.message77[..], &word[..77]);
    assert_eq!((result.hard_errors, result.iterations), (0, 0));
    // with other soft values and another rule, and no iteration granted
    let soft: Vec<Soft> = word.iter().map(|&b| Soft(if b == 1 { 0.25 } else { -3.5 })).collect();
    let rule = FnRule { f: sum_product };
    let result = bp_decode_generic_kind(&code, &soft, None, 0, &Crc14Check, &rule).unwrap();
    assert_eq!(result.codeword, word);
    assert_eq!((result.hard_errors, result.iterations), (0, 0));
}

#[test]
fn errors_are_corrected_and_counted() {
    let (code, encoder) = test_code();
    let word = encoder.encode(&checked_info(11));
    let mut llr: Vec<Q11i16> =
        word.iter().map(|&b| Q11i16(if b == 1 { 8000 } else { -8000 })).collect();
    for i in [5usize, 60] {
        llr[i] = Q11i16(if word[i] == 1 { -500 } else { 500 });
    }
    let rule = MinSum::<Q11i16>::Normalized { alpha: 24576 };
    let result =
        bp_decode_generic_kind(&code, &llr, None, 30, &Crc14Check, &rule).unwrap();
    assert_eq!(result.codeword, word);
    assert_eq!(result.hard_errors, 2);
    assert!(result.iterations > 0);
    let offset = MinSum::<Q11i16>::Offset { beta: Q11i16(300) };
    let again = bp_decode_generic_kind(&code, &llr, None, 30, &Crc14Check, &offset).unwrap();
    assert_eq!(again.codeword, word);
}

#[test]
fn sum_product_corrects_too() {
    let (code, encoder) = test_code();
    let word = encoder.encode(&checked_info(19));
    let mut llr: Vec<Soft> =
        word.iter().map(|&b| Soft(if b == 1 { 4.0 } else { -4.0 })).collect();
    llr[33] = Soft(-llr[33].0 / 8.0);
    let check = FnCheck { f: |info: &[u8]| check_crc14(info) };
    let result =
        bp_decode_generic_kind(&code, &llr, None, 30, &check, &FnRule { f: sum_product }).unwrap();
    assert_eq!(result.codeword, word);
    assert_eq!(result.hard_errors, 1);
}

#[test]
fn locked_bits_are_kept() {
    let (code, encoder) = test_code();
    let word = encoder.encode(&checked_info(23));
    let llr: Vec<Q11i16> =
        word.iter().map(|&b| Q11i16(if b == 1 { 8000 } else { -8000 })).collect();
    let mut wrong = llr.clone();
    wrong[4] = Q11i16(-llr[4].0);
    let mut mask = vec![false; 174];
    mask[4] = true;
    let rule = MinSum::<Q11i16>::Normalized { alpha: 24576 };
    let result = bp_decode_generic_kind(&code, &wrong, Some(&mask), 30, &AcceptAll, &rule);
    if let Some(r) = result {
        assert_eq!(r.codeword[4], 1 - word[4]);
    }
}

#[test]
fn hopeless_words_are_given_up() {
    let (code, _) = test_code();
    let llr: Vec<Q11i16> =
        (0..174).map(|i| Q11i16(if i % 3 == 0 { 700 } else { -700 })).collect();
    let rule = MinSum::<Q11i16>::Normalized { alpha: 24576 };
    assert!(bp_decode_generic_kind(&code, &llr, None, 0, &Crc14Check, &rule).is_none());
}

#[test]
fn tables_of_a_code_stay_in_range() {
    let (code, encoder) = test_code();
    assert!(code.is_well_formed() && encoder.is_well_formed());
    let (mut code, _) = test_code();
    code.rows[82].push(174);
    assert!(!code.is_well_formed());
    let (mut code, _) = test_code();
    code.columns[173] = [0, 1, 83];
    assert!(!code.is_well_formed());
    let (mut code, _) = test_code();
    code.columns.pop();
    assert!(!code.is_well_formed());
    let (mut code, _) = test_code();
    code.k = 76;
    assert!(!code.is_well_formed());
    code.k = 175;
    assert!(!code.is_well_formed());
    let (_, mut encoder) = test_code();
    encoder.parity[0].push(91);
    assert!(!encoder.is_well_formed());
}
