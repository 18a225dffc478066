use mediafinder::digest::Blake3Stream;
use mediafinder::media::verify::{ket_luan, Doc, VerifyOutcome};

fn s(v: &[&str]) -> Vec<String> {
    v.iter().map(|x| x.to_string()).collect()
}

fn h(b: u8) -> Doc {
    Doc::Xong([b; 32])
}

#[test]
fn cum_lon_xep_truoc_va_tep_loi_tach_rieng() {
    let paths = s(&["a", "b", "c", "d"]);
    let out = ket_luan(&paths, &[h(1), h(2), h(1), Doc::Loi]);
    assert_eq!(out.groups, vec![s(&["a", "c"]), s(&["b"])]);
    assert_eq!(out.unreadable, s(&["d"]));
    assert!(!out.cancelled);
}

#[test]
fn cum_bang_nhau_xep_theo_duong_dan() {
    let paths = s(&["z1", "a1", "z2", "a2"]);
    let out = ket_luan(&paths, &[h(7), h(9), h(7), h(9)]);
    assert_eq!(out.groups, vec![s(&["a1", "a2"]), s(&["z1", "z2"])]);
    assert!(out.unreadable.is_empty());
}

#[test]
fn ban_sao_that_thanh_mot_cum_duy_nhat() {
    let paths = s(&["x", "y", "w"]);
    let out = ket_luan(&paths, &[h(3), h(3), h(3)]);
    assert_eq!(out.groups, vec![s(&["x", "y", "w"])]);
}

#[test]
fn dung_giua_chung_khong_thanh_ket_luan() {
    let paths = s(&["a", "b", "c"]);
    let out = ket_luan(&paths, &[h(5), Doc::Dung, Doc::Loi]);
    assert!(out.cancelled);
    assert_eq!(out.groups, vec![s(&["a"])]);
    assert!(out.unreadable.is_empty(), "tep chua doc khong phai tep loi");
}

#[test]
fn khong_tep_nao_thi_khong_cum_nao() {
    let out = ket_luan(&[], &[]);
    assert_eq!(out, VerifyOutcome::default());
}

#[test]
fn bam_tung_khoi_bang_bam_ca_tep() {
    let mut s = Blake3Stream::new();
    assert_eq!(s.step(b"media"), None);
    assert_eq!(s.step(b"finder"), None);
    let h = s.step(b"").expect("an empty block ends the stream");
    assert_eq!(h, *blake3::hash(b"mediafinder").as_bytes());
    let mut e = Blake3Stream::new();
    assert_eq!(e.step(b""), Some(*blake3::hash(b"").as_bytes()));
}
