use mediafinder::media::ffthumbkho::{
    can_lam_moi, den_luot_kiem_tran, ffmpeg_truoc, khong_doc_de_doan, la_o_mang, la_png, la_tam_bo_do,
    ten_tam, ten_trong_kho, LuotDon, DAU_PNG, DON_CON, TRAN_BYTE,
};

#[test]
fn chi_chan_doan_truoc_tren_o_mang() {
    let mang = r"\\khong-co-may-nay-7c2e\share\clip.mov";
    let trong_may = r"C:\clip.mov";
    assert!(khong_doc_de_doan(mang, true, false));
    assert!(!khong_doc_de_doan(mang, false, false), "ô đang hiện phải được dựng");
    assert!(!khong_doc_de_doan(trong_may, true, false), "ổ trong máy vẫn đoán trước");
    assert!(!khong_doc_de_doan(trong_may, false, false));
}

#[test]
fn doan_truoc_tren_o_mang_thi_khong_dong_toi_tep() {
    // A UNC path is on the network without asking any server.
    assert!(la_o_mang(r"\\khong-co-may-nay-7c2e\share\clip.mov", false));
    assert!(khong_doc_de_doan(r"\\khong-co-may-nay-7c2e\share\clip.mov", true, false));
    // A mapped drive letter is on the network when the system says so.
    assert!(khong_doc_de_doan(r"Z:\clip.mov", true, true));
}

#[test]
fn ffmpeg_di_truoc_chi_voi_mov_tren_o_mang() {
    for co in [true, false] {
        assert_eq!(ffmpeg_truoc(r"\\nas-7c2e\share\clip.mov", false, co), co);
        assert_eq!(ffmpeg_truoc(r"\\nas-7c2e\share\CLIP.MKV", false, co), co);
        assert!(!ffmpeg_truoc(r"\\nas-7c2e\share\clip.mp4", false, co), ".mp4 phải để Windows");
        assert!(!ffmpeg_truoc(r"C:\clip.mov", false, co), "ổ trong máy giữ thứ tự cũ");
    }
}

#[test]
fn store_names_depend_on_everything_that_identifies_the_file() {
    let a = ten_trong_kho(r"D:\Phim\Nguon.MOV", 3, 1_000_000_000, 192);
    assert_eq!(a.len(), 32 + 4);
    assert!(a.ends_with(".png"));
    assert!(a[..32].chars().all(|c| c.is_ascii_hexdigit() && !c.is_ascii_uppercase()));
    assert_eq!(a, ten_trong_kho(r"d:\phim\nguon.mov", 3, 1_000_000_000, 192), "hoa thường không đổi tên");
    assert_ne!(a, ten_trong_kho(r"D:\Phim\Nguon.MOV", 6, 1_000_000_000, 192), "dung lượng đổi");
    assert_ne!(a, ten_trong_kho(r"D:\Phim\Nguon.MOV", 3, 1_000_000_001, 192), "mtime đổi");
    assert_ne!(a, ten_trong_kho(r"D:\Phim\Nguon.MOV", 3, 1_000_000_000, 64), "cỡ khác là ảnh khác");
}

#[test]
fn store_names_hash_the_documented_message() {
    let mut msg = b"ffthumb-v1".to_vec();
    msg.push(0);
    msg.extend_from_slice("d:\\a.mov".as_bytes());
    msg.push(0);
    msg.extend_from_slice(&7u64.to_le_bytes());
    msg.extend_from_slice(&9u128.to_le_bytes());
    msg.extend_from_slice(&192u32.to_le_bytes());
    let want = format!("{}.png", &blake3::hash(&msg).to_hex()[..32]);
    assert_eq!(ten_trong_kho(r"D:\A.MOV", 7, 9, 192), want);
}

#[test]
fn damaged_files_are_not_pngs() {
    let mut png = DAU_PNG.to_vec();
    png.extend_from_slice(&[7; 20]);
    assert!(la_png(&png));
    assert!(!la_png(b"rac"));
    assert!(!la_png(&png[..7]));
}

#[test]
fn small_rules_of_the_store() {
    assert!(can_lam_moi(Some(86_400_001)));
    assert!(!can_lam_moi(Some(1000)));
    assert!(!can_lam_moi(None));
    assert_eq!(ten_tam("ab.png", 42, 7), "ab.png.42.7.tmp");
    assert!(den_luot_kiem_tran(0) && den_luot_kiem_tran(128) && !den_luot_kiem_tran(65));
    assert!(la_tam_bo_do(Some(3601)) && !la_tam_bo_do(Some(3600)) && !la_tam_bo_do(None));
    assert_eq!(DON_CON, TRAN_BYTE / 4 * 3);
}

fn run(anh: &[(u64, u64)], tran: u64, con: u64) -> Vec<usize> {
    let mut out = Vec::new();
    if let Some(mut l) = LuotDon::bat_dau(anh, tran, con) {
        while let Some((i, n)) = l.tiep() {
            out.push(i);
            l.da_xoa(n);
        }
    }
    out
}

#[test]
fn vuot_tran_thi_duoi_anh_cu_nhat_truoc() {
    // 0 is the oldest.
    let anh = [(900, 100), (100, 100), (300, 100), (200, 100)];
    assert_eq!(run(&anh, 250, 200), vec![1, 3]);
}

#[test]
fn chua_vuot_tran_thi_khong_dung_gi() {
    let anh = [(1, 100), (2, 100), (3, 100)];
    assert!(run(&anh, 1000, 500).is_empty());
    assert!(LuotDon::bat_dau(&anh, 300, 100).is_none());
}
