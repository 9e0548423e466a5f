use hache::md5::MD5;
use hache::Digest;

fn pattern(n: usize) -> Vec<u8> {
    (0..n).map(|i| ((i * 7 + 3) % 256) as u8).collect()
}

fn digest_of_chunks(chunks: &[&[u8]]) -> String {
    let mut engine = MD5::new();
    for chunk in chunks {
        engine.update(chunk);
    }
    engine.finish().to_string()
}

#[test]
fn test_md5_0() {
    let digest = MD5::hexdigest("");
    assert_eq!(digest, "d41d8cd98f00b204e9800998ecf8427e");
}

#[test]
fn test_md5_1() {
    let digest = MD5::hexdigest("a");
    assert_eq!(digest, "0cc175b9c0f1b6a831c399e269772661");
}

#[test]
fn test_md5_2() {
    let digest = MD5::hexdigest("abc");
    assert_eq!(digest, "900150983cd24fb0d6963f7d28e17f72");
}

#[test]
fn test_md5_3() {
    let digest = MD5::hexdigest("message digest");
    assert_eq!(digest, "f96b697d7cb7938d525a2f31aaf161d0");
}

#[test]
fn test_md5_4() {
    let digest = MD5::hexdigest("abcdefghijklmnopqrstuvwxyz");
    assert_eq!(digest, "c3fcd3d76192e4007dfb496cca67e13b");
}

#[test]
fn test_md5_5() {
    let digest =
        MD5::hexdigest("ABCDEFGHIJKLMNOPQRSTUVWXYZabcdefghijklmnopqrstuvwxyz0123456789");
    assert_eq!(digest, "d174ab98d277d9f5a5611c2c9f419d9f");
}

#[test]
fn test_md5_6() {
    let digest = MD5::hexdigest(
        "12345678901234567890123456789012345678901234567890123456789012345678901234567890",
    );
    assert_eq!(digest, "57edf4a22be3c955ac49da2e2107b67a");
}

#[test]
fn test_update_md5_many_times() {
    let digest = MD5::new()
        .update(b"a")
        .update(b"b")
        .update(b"c")
        .finish()
        .to_string();
    assert_eq!(digest, "900150983cd24fb0d6963f7d28e17f72");
}

#[test]
fn test_reset() {
    let digest = MD5::new().update(b"a").reset().finish().to_string();
    assert_eq!(digest, "d41d8cd98f00b204e9800998ecf8427e");
}

#[test]
fn test_to_string_before_finish() {
    let digest = MD5::new().update(b"a").to_string();
    assert_eq!(digest, "00000000000000000000000000000000");
}

#[test]
fn fresh_engine_shows_zero_digest() {
    assert_eq!(MD5::new().to_string(), "00000000000000000000000000000000");
}

#[test]
fn quick_brown_fox() {
    assert_eq!(
        MD5::hexdigest("The quick brown fox jumps over the lazy dog"),
        "9e107d9d372bb6826bd81d3542a419d6"
    );
}

#[test]
fn non_ascii_text_is_digested_as_utf8_bytes() {
    assert_eq!(MD5::hexdigest("héllo"), "be50e8478cf24ff3595bc7307fb91b50");
}

#[test]
fn length_boundaries_repeated_letter() {
    let cases = [
        (55, "ef1772b6dff9a122358552954ad0df65"),
        (56, "3b0c8ac703f828b04c6c197006d17218"),
        (57, "652b906d60af96844ebd21b674f35e93"),
        (63, "b06521f39153d618550606be297466d5"),
        (64, "014842d480b571495a4a0363793f7367"),
        (65, "c743a45e0d2e6a95cb859adae0248435"),
    ];
    for (n, expected) in cases {
        let input = "a".repeat(n);
        assert_eq!(MD5::hexdigest(&input), expected, "length {}", n);
    }
}

#[test]
fn length_boundaries_byte_pattern() {
    let cases = [
        (55, "52c0e574e1198de5fe3f8f11440dcb1b"),
        (56, "46c9907fc908ee68b1e7b8e71286a518"),
        (57, "1c805dd236c35cab25fcb1bc73802c51"),
        (63, "a62f6d59e837867693f042f5b8f5a236"),
        (64, "7160b8fb5e9e4023d549c3971fbaeead"),
        (65, "70bd662e7aefbda85a0f7244167b7897"),
        (119, "e84905d4214f4d1ca56c2cdcc152b143"),
        (120, "e3eb5a6c8669ea01a8c185b8abc8a5dc"),
        (127, "acce2474d6cc8302120d09c818d17ef7"),
        (128, "10b2da1a82f16d99a81a7203fe9f02cb"),
        (129, "03fefbbcebe2959cf2270241aafe0250"),
    ];
    for (n, expected) in cases {
        let input = pattern(n);
        assert_eq!(digest_of_chunks(&[&input]), expected, "length {}", n);
    }
}

#[test]
fn long_input_in_one_update() {
    let input = pattern(1000);
    assert_eq!(digest_of_chunks(&[&input]), "10046f077f2082ac19676b8079f1cb1a");
    let input = pattern(200);
    assert_eq!(digest_of_chunks(&[&input]), "4c79b81ac94bad7a875519ce6b964c66");
}

#[test]
fn chunking_does_not_change_digest() {
    let input = pattern(200);
    let expected = "4c79b81ac94bad7a875519ce6b964c66";
    for cut in [0, 1, 55, 56, 63, 64, 65, 127, 128, 129, 199, 200] {
        let (a, b) = input.split_at(cut);
        assert_eq!(digest_of_chunks(&[a, b]), expected, "cut at {}", cut);
    }
    assert_eq!(digest_of_chunks(&[&input[..64], &input[64..128], &input[128..]]), expected);
    assert_eq!(digest_of_chunks(&[&input[..10], &[], &input[10..70], &input[70..]]), expected);
    let bytes: Vec<&[u8]> = input.chunks(1).collect();
    assert_eq!(digest_of_chunks(&bytes), expected);
    let sevens: Vec<&[u8]> = input.chunks(7).collect();
    assert_eq!(digest_of_chunks(&sevens), expected);
}

#[test]
fn empty_update_changes_nothing() {
    let digest = MD5::new().update(b"").update(b"abc").update(b"").finish().to_string();
    assert_eq!(digest, "900150983cd24fb0d6963f7d28e17f72");
}

#[test]
fn reset_after_long_input_matches_fresh_engine() {
    let input = pattern(130);
    let mut engine = MD5::new();
    engine.update(&input);
    let digest = engine.reset().update(b"abc").finish().to_string();
    assert_eq!(digest, "900150983cd24fb0d6963f7d28e17f72");
}

#[test]
fn reset_clears_a_finished_digest() {
    let mut engine = MD5::new();
    engine.update(b"abc").finish();
    assert_eq!(engine.to_string(), "900150983cd24fb0d6963f7d28e17f72");
    engine.reset();
    assert_eq!(engine.to_string(), "00000000000000000000000000000000");
}

#[test]
fn independent_engines_agree() {
    let input = pattern(150);
    let mut first = MD5::new();
    let mut second = MD5::new();
    first.update(&input[..30]).update(&input[30..]);
    second.update(&input[..30]).update(&input[30..]);
    assert_eq!(first.finish().to_string(), second.finish().to_string());
}

#[test]
fn hexdigest_matches_streaming_engine() {
    for text in ["", "a", "message digest", "12345678901234567890123456789012345678901234567890123456789012345678901234567890"] {
        let streamed = MD5::new().update(text.as_bytes()).finish().to_string();
        assert_eq!(MD5::hexdigest(text), streamed);
    }
}
