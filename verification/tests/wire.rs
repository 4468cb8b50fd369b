use labinius::challenge::Transcript;
use labinius::ring::{RingElement, Representation};
use labinius::scheme::{FoldedWitness, RowEvaluation};
use labinius::wire::bits::{BitReader, BitWriter};
use labinius::wire::quantize::{quantize, select};
use labinius::wire::rans::{decode, encode};
use labinius::wire::uniform::{
    f162_bytes, pack_f162, pack_row_evaluation, unpack_f162, unpack_row_evaluation,
};
use labinius::wire::{residue_bits, WireError};

#[test]
fn bits_are_read_as_they_were_written() {
    let mut w = BitWriter::with_capacity(16);
    w.put(5, 3);
    w.put(0, 1);
    w.put_wide(0x0123_4567_89AB_CDEF, 60);
    w.put_gamma(1);
    w.put_gamma(37);
    let b = w.finish();
    let mut r = BitReader::new(&b);
    assert_eq!(r.get(3), Ok(5));
    assert_eq!(r.get(1), Ok(0));
    assert_eq!(r.get_wide(60), Ok(0x0123_4567_89AB_CDEF));
    assert_eq!(r.get_gamma(), Ok(1));
    assert_eq!(r.get_gamma(), Ok(37));
    assert_eq!(r.consumed(), b.len());
}

#[test]
fn a_short_string_is_truncated() {
    let b = [0xFFu8];
    let mut r = BitReader::new(&b);
    assert_eq!(r.get(8), Ok(255));
    assert_eq!(r.get(1), Err(WireError::Truncated));
    let zeros = [0u8; 4];
    assert!(BitReader::new(&zeros).get_gamma().is_err());
}

#[test]
fn residue_widths() {
    assert_eq!(residue_bits(3889), 12);
    assert_eq!(residue_bits(9721), 14);
    assert_eq!(residue_bits(17497), 15);
    assert_eq!(residue_bits(19441), 15);
}

#[test]
fn field_elements_pack_at_162_bits() {
    let mut t = Transcript::new(b"wire");
    let v = t.sample_f162(b"v", 5);
    let b = pack_f162(&v);
    assert_eq!(b.len(), (5 * 162 + 7) / 8);
    assert_eq!(f162_bytes(5), b.len());
    assert_eq!(unpack_f162(&b, 5).unwrap(), v);
    assert_eq!(unpack_f162(&b[..b.len() - 1], 5), Err(WireError::Malformed));
    let mut padded = b.clone();
    let n = padded.len();
    padded[n - 1] |= 0x80;
    assert_eq!(unpack_f162(&padded, 5).unwrap(), v);
    let row = RowEvaluation::of(v);
    assert_eq!(unpack_row_evaluation(&pack_row_evaluation(&row), 5).unwrap(), row);
}

#[test]
fn quantized_frequencies_fill_the_table() {
    let f = quantize(&[100, 1000, 300, 500_000]);
    assert_eq!(f.len(), 4);
    assert_eq!(f.iter().sum::<u32>(), 4096);
    assert!(f[3] > f[1]);
    assert_eq!(quantize(&[0, 0]), vec![0, 0]);
}

#[test]
fn the_largest_are_selected() {
    assert_eq!(select(&[5, 1, 9, 9], 2), vec![false, false, true, true]);
    assert_eq!(select(&[5, 1, 9], 0), vec![false; 3]);
}

fn witness(f: impl Fn(usize) -> i16, n: usize) -> FoldedWitness {
    let mut v = Vec::new();
    for k in 0..n {
        let mut e = RingElement::zero(Representation::Coefficients);
        for i in 0..648 {
            e.v[i] = f(648 * k + i);
        }
        v.push(e);
    }
    FoldedWitness::of(v)
}

#[test]
fn the_entropy_coder_round_trips() {
    for w in [
        witness(|i| ((i * 37) % 41) as i16 - 20, 2),
        witness(|_| 0, 1),
        witness(|i| if i % 100 == 0 { 1900 } else { (i % 3) as i16 - 1 }, 3),
    ] {
        let b = encode(&w, 3889);
        assert_eq!(decode(&b), Ok(w));
    }
}

#[test]
fn a_peaked_witness_codes_short() {
    let w = witness(|i| if i % 50 == 0 { 1 } else { 0 }, 4);
    let b = encode(&w, 3889);
    assert!(b.len() < 4 * 648 / 8 * 2);
}

#[test]
fn malformed_codes_are_refused() {
    let w = witness(|i| (i % 7) as i16 - 3, 2);
    let b = encode(&w, 3889);
    for cut in [0, 1, 5, b.len() / 2, b.len() - 1] {
        assert!(decode(&b[..cut]).is_err());
    }
    let mut longer = b.clone();
    longer.push(0);
    assert!(decode(&longer).is_err());
}

#[test]
fn every_cut_and_every_extension_of_a_code_is_refused() {
    let w = witness(|i| ((i * i) % 11) as i16 - 5, 1);
    let b = encode(&w, 3889);
    for cut in 0..b.len() {
        let r = decode(&b[..cut]);
        assert!(r.is_err());
        if cut < 16 {
            assert_eq!(r, Err(WireError::Truncated));
        }
    }
    for extra in [vec![0u8], vec![0, 0], vec![1; 7], vec![0xFF; 256]] {
        let mut longer = b.clone();
        longer.extend(extra);
        assert!(decode(&longer).is_err());
    }
    let empty = encode(&FoldedWitness::of(vec![]), 3889);
    assert_eq!(empty.len(), 16);
    assert_eq!(decode(&empty), Ok(FoldedWitness::of(vec![])));
    assert!(decode(&empty[..15]).is_err());
    let mut longer = empty.clone();
    longer.push(0);
    assert!(decode(&longer).is_err());
}
