use oxideav_ape::md5::Md5;

fn hex(d: &[u8; 16]) -> String {
    d.iter().map(|b| format!("{b:02x}")).collect()
}

#[test]
fn rfc_1321_test_vectors() {
    assert_eq!(hex(&Md5::digest(b"")), "d41d8cd98f00b204e9800998ecf8427e");
    assert_eq!(hex(&Md5::digest(b"a")), "0cc175b9c0f1b6a831c399e269772661");
    assert_eq!(
        hex(&Md5::digest(b"abc")),
        "900150983cd24fb0d6963f7d28e17f72"
    );
    assert_eq!(
        hex(&Md5::digest(b"message digest")),
        "f96b697d7cb7938d525a2f31aaf161d0"
    );
    assert_eq!(
        hex(&Md5::digest(b"abcdefghijklmnopqrstuvwxyz")),
        "c3fcd3d76192e4007dfb496cca67e13b"
    );
    assert_eq!(
        hex(&Md5::digest(
            b"ABCDEFGHIJKLMNOPQRSTUVWXYZabcdefghijklmnopqrstuvwxyz0123456789"
        )),
        "d174ab98d277d9f5a5611c2c9f419d9f"
    );
    assert_eq!(
        hex(&Md5::digest(
            b"12345678901234567890123456789012345678901234567890123456789012345678901234567890"
        )),
        "57edf4a22be3c955ac49da2e2107b67a"
    );
}

#[test]
fn streaming_matches_one_shot_at_every_split() {
    let data: Vec<u8> = (0..300u32).map(|i| (i * 7 + 3) as u8).collect();
    let whole = Md5::digest(&data);
    for split in 0..data.len() {
        let mut h = Md5::new();
        h.update(&data[..split]);
        h.update(&data[split..]);
        assert_eq!(h.finish(), whole, "split {split}");
    }
    let mut h = Md5::new();
    for b in &data {
        h.update(core::slice::from_ref(b));
    }
    assert_eq!(h.finish(), whole);
}

#[test]
fn padding_boundaries_55_56_63_64_bytes() {
    for len in [55usize, 56, 57, 63, 64, 65, 119, 120, 128] {
        let data = vec![0x61u8; len];
        let mut h = Md5::new();
        h.update(&data);
        assert_eq!(h.finish(), Md5::digest(&data), "len {len}");
    }
    assert_eq!(
        hex(&Md5::digest(&[0x61u8; 64])),
        "014842d480b571495a4a0363793f7367"
    );
}
