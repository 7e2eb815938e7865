use elias_fano::elias_fano::EliasFano;
use flate2::Compression;
use std::io::Write;

#[test]
fn it_works() {
    let ids: Vec<usize> = (0..100)
        .chain(1000..1023)
        .chain(1060..1400)
        .chain(20000..20001)
        .collect();

    let gzipped = {
        let ids: Vec<_> = ids.iter().flat_map(|i| (*i as u32).to_be_bytes()).collect();
        let mut out = vec![];
        let mut encoder = flate2::write::GzEncoder::new(&mut out, Compression::new(9));
        encoder.write(ids.as_slice()).expect("wrote bytes");
        encoder.finish().expect("finished");
        out.len()
    };

    let efed = {
        let ef = EliasFano::new(ids).expect("elias fano encoding");
        ef.as_bytes().len()
    };

    println!("ef={} gzip={}", efed, gzipped);
    assert!(efed < gzipped, "elias fano size is better");
}

#[test]
fn size_of_a_clustered_set() {
    let ids: Vec<usize> = (0..100)
        .chain(1000..1023)
        .chain(1060..1400)
        .chain(20000..20001)
        .collect();
    // 464 values up to 20000: 6 low bits per value and 512 buckets, so
    // 44 words of low parts and 16 words of bucket code after the header.
    let ef = EliasFano::new(ids).expect("elias fano encoding");
    assert_eq!(ef.as_bytes().len(), 32 + 16 * 8 + 44 * 8);
}
