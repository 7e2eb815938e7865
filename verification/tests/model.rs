use elias_fano::bits::Bits;
use elias_fano::elias_fano::EliasFano;

/// A small deterministic generator, so that every run sees the same cases.
struct Lcg(u64);

impl Lcg {
    fn next(&mut self) -> u64 {
        self.0 = self
            .0
            .wrapping_mul(6364136223846793005)
            .wrapping_add(1442695040888963407);
        self.0 >> 11
    }

    fn below(&mut self, bound: u64) -> u64 {
        self.next() % bound
    }
}

fn naive_select(bits: &[bool], bit: bool, rank: usize) -> Option<usize> {
    bits.iter()
        .enumerate()
        .filter(|(_, b)| **b == bit)
        .map(|(p, _)| p)
        .nth(rank)
}

fn naive_slice(bits: &[bool], start: usize, end: usize) -> Option<u64> {
    if start / 64 >= bits.len() / 64 {
        return None;
    }
    let mut value = 0u64;
    for i in 0..(end - start) {
        if start + i < bits.len() && bits[start + i] {
            value |= 1 << i;
        }
    }
    Some(value)
}

fn padded(content: &[bool]) -> Vec<bool> {
    let mut stored = content.to_vec();
    stored.resize((content.len() / 64 + 1) * 64, false);
    stored
}

#[test]
fn bit_vector_agrees_with_a_list_of_booleans() {
    let mut rng = Lcg(0x5eed);
    for _ in 0..60 {
        let mut bits = Bits::new();
        let mut content: Vec<bool> = Vec::new();
        for _ in 0..rng.below(40) {
            match rng.below(3) {
                0 => {
                    let k = rng.below(150) as usize;
                    bits.append_ones(k);
                    content.extend(std::iter::repeat(true).take(k));
                }
                1 => {
                    let k = rng.below(150) as usize;
                    bits.append_zeros(k);
                    content.extend(std::iter::repeat(false).take(k));
                }
                _ => {
                    let k = rng.below(65) as usize;
                    let value = rng.next() << 11 | rng.below(2048);
                    bits.append_from(value, k);
                    content.extend((0..k).map(|i| (value >> i) & 1 == 1));
                }
            }
        }
        let stored = padded(&content);
        let bytes = bits.as_bytes();
        assert_eq!(bytes.len() * 8, stored.len());
        for (p, bit) in stored.iter().enumerate() {
            assert_eq!((bytes[p / 8] >> (p % 8)) & 1 == 1, *bit);
        }
        let view = Bits::from_bytes(bytes.as_slice()).expect("whole words");
        let ones = stored.iter().filter(|b| **b).count();
        let zeros = stored.len() - ones;
        for rank in [0, 1, 2, ones / 2, ones.wrapping_sub(1), ones, ones + 1] {
            assert_eq!(bits.select_1(rank), naive_select(&stored, true, rank));
            assert_eq!(view.select_1(rank), naive_select(&stored, true, rank));
        }
        for rank in [0, 1, 2, zeros / 2, zeros - 1, zeros, zeros + 1] {
            assert_eq!(bits.select_0(rank), naive_select(&stored, false, rank));
            assert_eq!(view.select_0(rank), naive_select(&stored, false, rank));
        }
        for _ in 0..40 {
            let start = rng.below(stored.len() as u64 + 70) as usize;
            let end = start + rng.below(65) as usize;
            assert_eq!(bits.slice(start, end), naive_slice(&stored, start, end));
            assert_eq!(view.slice(start, end), naive_slice(&stored, start, end));
        }
    }
}

#[test]
fn select_agrees_with_counting_in_every_position_of_a_word() {
    for position in 0..128usize {
        let mut bits = Bits::new();
        bits.append_zeros(position).append_ones(1).append_zeros(130 - position);
        assert_eq!(bits.select_1(0), Some(position));
        assert_eq!(bits.select_1(1), None);
        assert_eq!(bits.select_0(position), Some(position + 1));
        if position > 0 {
            assert_eq!(bits.select_0(position - 1), Some(position - 1));
        }
    }
}

fn sorted_set(rng: &mut Lcg, count: usize, step: u64) -> Vec<usize> {
    let mut ids = Vec::with_capacity(count);
    let mut next = rng.below(step) as usize;
    for _ in 0..count {
        ids.push(next);
        next += 1 + rng.below(step) as usize;
    }
    ids
}

fn successor(ids: &[usize], value: usize) -> Option<usize> {
    ids.iter().copied().find(|id| *id >= value)
}

#[test]
fn set_agrees_with_a_sorted_list() {
    let mut rng = Lcg(0xe1a5);
    let mut checked = 0;
    for round in 0..120 {
        let count = 1 + rng.below(400) as usize;
        let step = [1u64, 2, 3, 10, 100, 5000, 1 << 20, 1 << 40][round % 8];
        let ids = sorted_set(&mut rng, count, step);
        let ef = EliasFano::new(ids.clone()).expect("elias fano encoding");
        let bytes = ef.as_bytes();
        let (upper_width, lower_width) = (bytes[15] as u32, bytes[23] as u32);
        let largest = ids[count - 1] as u64;
        let high = if lower_width >= 64 { 0 } else { largest >> lower_width };
        if high >= 1u64 << upper_width {
            // the largest value falls into a bucket that the upper width cannot name
            continue;
        }
        checked += 1;
        let view = EliasFano::from_bytes(bytes.as_slice()).expect("deserialized");
        assert_eq!(ef.iter().collect::<Vec<_>>(), ids);
        assert_eq!(view.iter().collect::<Vec<_>>(), ids);
        for (rank, id) in ids.iter().enumerate() {
            assert_eq!(ef.get(rank), Some(*id));
            assert_eq!(view.get(rank), Some(*id));
        }
        assert_eq!(ef.get(count), None);
        for _ in 0..60 {
            let value = rng.below(largest + 3) as usize;
            assert_eq!(ef.next_geq(value), successor(&ids, value));
            assert_eq!(view.next_geq(value), successor(&ids, value));
        }
        for id in ids.iter().take(50) {
            assert_eq!(ef.next_geq(*id), Some(*id));
            assert_eq!(ef.next_geq(*id + 1), successor(&ids, *id + 1));
        }
    }
    assert!(checked > 100);
}
