use make_npdata_rs::error::Error;
use make_npdata_rs::lz::decompress;

fn bytes(hex: &str) -> Vec<u8> {
    (0..hex.len() / 2).map(|i| u8::from_str_radix(&hex[2 * i..2 * i + 2], 16).unwrap()).collect()
}

#[test]
fn stored_blocks_are_copied() {
    let src = [0x80, 0, 0, 0, 3, 7, 8, 9, 10];
    assert_eq!(decompress(&src, 3), Ok(vec![7, 8, 9]));
    assert_eq!(decompress(&src, 100), Ok(vec![7, 8, 9]));
    assert_eq!(decompress(&[0xFF, 0, 0, 0, 0], 0), Ok(vec![]));
}

#[test]
fn stored_blocks_must_fit() {
    assert_eq!(decompress(&[0x80, 0, 0, 0, 3, 7, 8, 9], 2), Err(Error::InvalidStoredBlock));
    assert_eq!(decompress(&[0x80, 0, 0, 0, 4, 7, 8, 9], 9), Err(Error::InvalidStoredBlock));
}

#[test]
fn short_streams_are_refused() {
    assert_eq!(decompress(&[0x80, 0, 0, 0], 4), Err(Error::StreamTooShort));
    assert_eq!(decompress(&[], 0), Err(Error::StreamTooShort));
}

#[test]
fn streams_that_fill_the_output_decompress() {
    let cases = [
        (
            "06bd6bda4dd69428e635ce6b61320d0f633fe1e465",
            20,
            "85474747e1d747e1d78432843284328432848484",
        ),
        ("018cd0387650e0edeae5479fd8f224", 20, "e6a9a9a9a9a9a9a9a9dea9a9a9a94da94d834d83"),
        (
            "03fa4dcb850283b0017bafee7c582f925b98d1f5bd2e7bd7",
            20,
            "0bb2cf7a2d7281d52d72814cd52d72812d722d72",
        ),
        ("00a48358ea6cccc1ff716514", 20, "b6b6b6b6b6b6b6b6b6b6b6b6b6b6b6b6b6b6b631"),
        ("07f1771b0de0166972817e", 20, "1d1f1f1f01010101010101010101010101010101"),
    ];
    for (src, size, expected) in cases {
        assert_eq!(decompress(&bytes(src), size), Ok(bytes(expected)));
    }
}

#[test]
fn streams_may_end_before_the_output_is_full() {
    let cases = [
        (
            "03b15d44e1e753c439b40356830e507fde71dee15a47",
            40,
            "9d7bc7a65c69ae313131313131313131313131313131313131313131fbad",
        ),
        ("06956077398b3129f9bacc7d", 40, "d5702f2f2fd2"),
        ("04e4f4567dc87b0a72fbf9b122734a689d", 8, "3629be303d3d3d"),
    ];
    for (src, size, expected) in cases {
        let out = decompress(&bytes(src), size).unwrap();
        assert_eq!(out, bytes(expected));
        assert!(out.len() <= size);
    }
}

#[test]
fn bytes_after_a_stream_are_ignored() {
    for (src, size) in [
        ("018cd0387650e0edeae5479fd8f224", 20),
        ("06956077398b3129f9bacc7d", 40),
        ("8000000003070809", 3),
    ] {
        let mut longer = bytes(src);
        let out = decompress(&longer, size).unwrap();
        longer.extend_from_slice(&[0xFF, 0x00, 0x5A]);
        assert_eq!(decompress(&longer, size), Ok(out));
    }
}

#[test]
fn the_size_is_an_upper_limit() {
    let src = bytes("06956077398b3129f9bacc7d");
    let out = bytes("d5702f2f2fd2");
    for size in [6, 7, 40, 1000] {
        assert_eq!(decompress(&src, size), Ok(out.clone()));
    }
    assert_ne!(decompress(&src, 5), Ok(out));
}

#[test]
fn broken_streams_are_refused() {
    assert_eq!(
        decompress(&bytes("06182530bb1d6d132cded6237b2ed91e"), 5),
        Err(Error::LzUnderflow)
    );
    assert_eq!(decompress(&bytes("03cbc8fe2955e5cd8e46"), 40), Err(Error::StreamEnded));
    assert_eq!(
        decompress(&bytes("01c2e7ea93b495b4c8c4a403ffc2e3995e9b4a"), 8),
        Err(Error::LzOverflow)
    );
}
