use mediafinder::media::ffphien::{doc_mime, KetQuaDoc};

/// Dựng một hộp MP4: [cỡ][loại][nội dung].
fn hop(loai: &[u8; 4], noi_dung: &[u8]) -> Vec<u8> {
    let mut v = ((8 + noi_dung.len()) as u32).to_be_bytes().to_vec();
    v.extend_from_slice(loai);
    v.extend_from_slice(noi_dung);
    v
}

fn fmp4_gia(co_tieng: bool) -> Vec<u8> {
    // avcC: phiên bản 1, profile High (0x64), tương thích 0x00, level 3.1 (0x1F)
    let mut trong = hop(b"avcC", &[1, 0x64, 0x00, 0x1F, 0xFF, 0xE1]);
    if co_tieng {
        trong.extend(hop(b"mp4a", &[0; 8]));
    }
    let mut v = hop(b"ftyp", b"iso5\0\0\x02\0");
    v.extend(hop(b"moov", &trong));
    v.extend(hop(b"moof", &[0; 16]));
    v.extend(hop(b"mdat", &[7; 64]));
    v
}

#[test]
fn doc_duoc_chuoi_codec_tu_moov() {
    assert_eq!(
        doc_mime(&fmp4_gia(false)).as_deref(),
        Some("video/mp4; codecs=\"avc1.64001F\"")
    );
    assert_eq!(
        doc_mime(&fmp4_gia(true)).as_deref(),
        Some("video/mp4; codecs=\"avc1.64001F, mp4a.40.2\"")
    );
}

#[test]
fn moov_chua_ve_tron_thi_chua_tra_loi() {
    let b = fmp4_gia(false);
    // Cắt giữa hộp moov.
    let moov = b.windows(4).position(|w| w == b"moov").unwrap();
    assert_eq!(doc_mime(&b[..moov + 6]), None);
}

#[test]
fn hop_hong_hoac_khong_co_moov_thi_khong_tra_loi() {
    // A box claiming to be smaller than its own header.
    let mut b = vec![0u8, 0, 0, 4];
    b.extend_from_slice(b"moov");
    assert_eq!(doc_mime(&b), None);
    // moov without avcC: not H.264, nothing to announce.
    let mut v = hop(b"ftyp", b"iso5\0\0\x02\0");
    v.extend(hop(b"moov", &hop(b"mp4a", &[0; 8])));
    assert_eq!(doc_mime(&v), None);
    assert_eq!(doc_mime(&[]), None);
    assert_ne!(KetQuaDoc::MatPhien, KetQuaDoc::Het(Vec::new()));
}
