use mediafinder::media::verifyfast::{
    bat_dau, doc_tiep, ke_hoach_doc, ket_qua, sau_khi_doc, tach_cum, tong_theo_co, KetQua, Muc, CO_KHOI, HAI_DAU,
    SO_KHOI_MAU,
};

#[test]
fn toan_bo_luon_doc_tron_tep() {
    let kh = ke_hoach_doc(100_000_000_000, Muc::ToanBo);
    assert_eq!(kh, vec![(0, 100_000_000_000)]);
}


/// Chi phí mức Nhanh **không tăng theo dung lượng** — đó là toàn bộ lý do
/// nó tồn tại. Tệp 16 GB và tệp 160 GB phải đọc xấp xỉ bằng nhau.
#[test]
fn muc_nhanh_khong_dat_hon_khi_tep_lon_hon() {
    let a: u64 = ke_hoach_doc(16 * 1024 * 1024 * 1024, Muc::Nhanh)
        .iter()
        .map(|(_, n)| n)
        .sum();
    let b: u64 = ke_hoach_doc(160 * 1024 * 1024 * 1024, Muc::Nhanh)
        .iter()
        .map(|(_, n)| n)
        .sum();
    assert_eq!(a, b, "chi phi muc Nhanh phai la hang so");
    // 200 MiB mẫu + 16 MiB hai đầu.
    assert_eq!(a, SO_KHOI_MAU * CO_KHOI as u64 + HAI_DAU * 2);
}


/// Tệp nhỏ hơn lượng mẫu thì đọc trọn — nhảy lung tung trên đĩa cơ đắt hơn
/// đọc thẳng, nên "lấy mẫu" ở đó là tự làm chậm mình.
#[test]
fn tep_nho_thi_doc_tron_du_o_muc_nhanh() {
    let nho = 4 * 1024 * 1024;
    assert_eq!(ke_hoach_doc(nho, Muc::Nhanh), vec![(0, nho)]);
}


#[test]
fn ke_hoach_khong_bao_gio_doc_qua_cuoi_tep() {
    let size = 64 * 1024 * 1024 * 1024;
    for (off, n) in ke_hoach_doc(size, Muc::Nhanh) {
        assert!(off + n <= size, "doc qua cuoi tep: {off}+{n} > {size}");
    }
}


/// Ở mức Nhanh, mẫu số phải là lượng SẼ đọc chứ không phải dung lượng
/// nhóm — hai con số chênh nhau gần trăm lần.
#[test]
fn tong_se_doc_o_muc_nhanh_nho_hon_han_dung_luong_nhom() {
    let size = 16 * 1024 * 1024 * 1024u64;
    let mot_tep: u64 = ke_hoach_doc(size, Muc::Nhanh).iter().map(|(_, n)| n).sum();
    assert!(
        mot_tep * 50 < size,
        "muc Nhanh doc {mot_tep} tren tep {size} — le ra phai duoi 2%"
    );
}


#[test]
fn tong_theo_co_cong_dung_tung_ke_hoach() {
    let lon = 16 * 1024 * 1024 * 1024u64;
    let mot: u64 = ke_hoach_doc(lon, Muc::Nhanh).iter().map(|(_, n)| n).sum();
    assert_eq!(tong_theo_co(&[lon, lon, 1000], Muc::Nhanh), 2 * mot + 1000);
    assert_eq!(tong_theo_co(&[lon, 1000], Muc::ToanBo), lon + 1000);
    assert_eq!(tong_theo_co(&[], Muc::Nhanh), 0);
}

#[test]
fn ke_hoach_nhanh_gom_dau_mau_va_duoi() {
    let size = 1024 * 1024 * 1024u64;
    let kh = ke_hoach_doc(size, Muc::Nhanh);
    assert_eq!(kh.len(), SO_KHOI_MAU as usize + 2);
    assert_eq!(kh[0], (0, HAI_DAU));
    assert_eq!(kh[1], (HAI_DAU, CO_KHOI));
    assert_eq!(kh[kh.len() - 1], (size - HAI_DAU, HAI_DAU));
}

#[test]
fn tach_cum_theo_noi_dung_vua_doc() {
    // Files 0, 2 and 3 read the same; file 1 differs; file 4 is already alone.
    let cum = vec![vec![0, 1, 2, 3], vec![4]];
    let bufs = vec![vec![1u8, 2], vec![9u8], vec![1u8, 2], vec![1u8, 2], vec![7u8]];
    assert_eq!(tach_cum(&cum, &bufs), vec![vec![0, 2, 3], vec![1], vec![4]]);
    // A file that could not be read (empty buffer) stands apart from the rest.
    let bufs = vec![vec![], vec![5u8], vec![5u8], vec![], vec![]];
    assert_eq!(tach_cum(&vec![vec![1, 0, 2]], &bufs), vec![vec![1, 2], vec![0]]);
}

/// Run a comparison over files held in memory (`None`: could not be opened),
/// reading exactly as the command reads from disk.
fn doi_chieu(files: &[(&str, Option<Vec<u8>>)], muc: Muc, dung_lai: &dyn Fn() -> bool, da_doc: &dyn Fn(u64)) -> KetQua {
    let paths: Vec<String> = files.iter().map(|(p, _)| p.to_string()).collect();
    let opened: Vec<Option<u64>> = files.iter().map(|(_, b)| b.as_ref().map(|b| b.len() as u64)).collect();
    let unreadable: Vec<String> = files.iter().filter(|(_, b)| b.is_none()).map(|(p, _)| p.to_string()).collect();
    let mut st = bat_dau(&opened, muc);
    while let Some((off, lay)) = doc_tiep(&st) {
        if dung_lai() {
            st = sau_khi_doc(st, &Vec::new(), true);
            break;
        }
        let mut bufs: Vec<Vec<u8>> = vec![Vec::new(); files.len()];
        for nhom in st.cum.iter().filter(|n| n.len() >= 2) {
            for &i in nhom {
                let b = files[i].1.as_ref().unwrap();
                let from = (off as usize).min(b.len());
                let to = (from + lay).min(b.len());
                bufs[i] = b[from..to].to_vec();
                da_doc((to - from) as u64);
            }
        }
        st = sau_khi_doc(st, &bufs, false);
    }
    ket_qua(&paths, &st, unreadable)
}

const KHONG_DUNG: fn() -> bool = || false;

#[test]
fn verifyfast_ban_sao_that_ve_mot_cum() {
    let noi_dung = vec![9u8; 3_000_000];
    let kq = doi_chieu(&[("a.bin", Some(noi_dung.clone())), ("b.bin", Some(noi_dung))], Muc::ToanBo, &KHONG_DUNG, &|_| {});
    assert_eq!(kq.groups.len(), 1);
    assert_eq!(kq.groups[0].len(), 2);
    assert!(!kq.cancelled);
}

#[test]
fn tach_duoc_ke_gia_dang_khac_o_giua() {
    let mut that = vec![0xAAu8; 3_000_000];
    that[1_500_000] = 1;
    let mut gia = that.clone();
    gia[1_500_000] = 2;
    let kq = doi_chieu(
        &[("a.bin", Some(that.clone())), ("b.bin", Some(that)), ("gia.bin", Some(gia))],
        Muc::ToanBo,
        &KHONG_DUNG,
        &|_| {},
    );
    assert_eq!(kq.groups.len(), 2, "phai tach lam hai: {:?}", kq.groups);
    assert_eq!(kq.groups[0].len(), 2);
    assert_eq!(kq.groups[1], vec!["gia.bin".to_string()]);
}

#[test]
fn khac_ngay_dau_thi_thoi_doc_phan_con_lai() {
    let mut a_b = vec![5u8; 40 * 1024 * 1024];
    a_b[0] = 1;
    let mut b_b = a_b.clone();
    b_b[0] = 2;
    let kq = doi_chieu(&[("a.bin", Some(a_b)), ("b.bin", Some(b_b))], Muc::ToanBo, &KHONG_DUNG, &|_| {});
    assert_eq!(kq.groups.len(), 2);
    assert!(kq.bytes_read < 40 * 1024 * 1024, "khac ngay dau ma van doc het: {} byte", kq.bytes_read);
}

#[test]
fn tep_bien_mat_vao_unreadable_khong_phai_khac_noi_dung() {
    let kq = doi_chieu(
        &[("a.bin", Some(b"con day".to_vec())), ("b.bin", Some(b"con day".to_vec())), ("da-xoa.bin", None)],
        Muc::ToanBo,
        &KHONG_DUNG,
        &|_| {},
    );
    assert_eq!(kq.unreadable, vec!["da-xoa.bin".to_string()]);
    assert_eq!(kq.groups.len(), 1);
}

#[test]
fn dung_giua_chung_thi_bat_co() {
    let noi_dung = vec![7u8; 5_000_000];
    let kq = doi_chieu(&[("a.bin", Some(noi_dung.clone())), ("b.bin", Some(noi_dung))], Muc::ToanBo, &|| true, &|_| {});
    assert!(kq.cancelled);
}

#[test]
fn tien_do_bao_dung_so_byte_da_doc() {
    let noi_dung = vec![3u8; 2_000_000];
    let dem = std::sync::atomic::AtomicU64::new(0);
    let kq = doi_chieu(&[("a.bin", Some(noi_dung.clone())), ("b.bin", Some(noi_dung))], Muc::ToanBo, &KHONG_DUNG, &|n| {
        dem.fetch_add(n, std::sync::atomic::Ordering::Relaxed);
    });
    assert_eq!(
        dem.load(std::sync::atomic::Ordering::Relaxed),
        kq.bytes_read,
        "so byte bao cho thanh tien do phai khop so byte that su doc"
    );
    assert_eq!(kq.bytes_read, 4_000_000, "hai tep 2 MB thi doc 4 MB");
}

#[test]
fn muc_duoc_ghi_vao_ket_qua_de_giao_dien_noi_dung_su_that() {
    let files = [("a.bin", Some(b"xin chao".to_vec())), ("b.bin", Some(b"xin chao".to_vec()))];
    assert_eq!(doi_chieu(&files, Muc::Nhanh, &KHONG_DUNG, &|_| {}).muc, Muc::Nhanh);
    assert_eq!(doi_chieu(&files, Muc::ToanBo, &KHONG_DUNG, &|_| {}).muc, Muc::ToanBo);
}

#[test]
fn mot_tep_mo_duoc_thi_khong_doc_gi() {
    let kq = doi_chieu(&[("a.bin", Some(vec![1u8; 10])), ("b.bin", None)], Muc::ToanBo, &KHONG_DUNG, &|_| {});
    assert_eq!(kq.groups, vec![vec!["a.bin".to_string()]]);
    assert_eq!(kq.bytes_read, 0);
    assert!(!kq.cancelled);
}

#[test]
fn cum_lon_truoc_roi_theo_duong_dan() {
    let x = vec![1u8; 100];
    let y = vec![2u8; 100];
    let kq = doi_chieu(
        &[("d.bin", Some(y.clone())), ("c.bin", Some(x.clone())), ("b.bin", Some(y)), ("a.bin", Some(vec![3u8; 100])), ("e.bin", Some(x.clone())), ("f.bin", Some(x))],
        Muc::ToanBo,
        &KHONG_DUNG,
        &|_| {},
    );
    assert_eq!(
        kq.groups,
        vec![
            vec!["c.bin".to_string(), "e.bin".to_string(), "f.bin".to_string()],
            vec!["d.bin".to_string(), "b.bin".to_string()],
            vec!["a.bin".to_string()],
        ]
    );
}

#[test]
fn tep_khac_dung_luong_khong_bao_gio_chung_cum() {
    let ngan = b"abcdefgh".to_vec();
    let dai = b"abcdefghijkl".to_vec();
    let kq = doi_chieu(
        &[("ngan.bin", Some(ngan.clone())), ("dai.bin", Some(dai)), ("ngan2.bin", Some(ngan))],
        Muc::ToanBo,
        &KHONG_DUNG,
        &|_| {},
    );
    assert_eq!(
        kq.groups,
        vec![vec!["ngan.bin".to_string(), "ngan2.bin".to_string()], vec!["dai.bin".to_string()]]
    );
}

#[test]
fn hai_tep_khac_dung_luong_thi_khong_doc_gi() {
    let kq = doi_chieu(
        &[("a.bin", Some(b"abcdefgh".to_vec())), ("b.bin", Some(b"abcdefghijkl".to_vec()))],
        Muc::ToanBo,
        &KHONG_DUNG,
        &|_| {},
    );
    assert_eq!(kq.groups.len(), 2);
    assert_eq!(kq.bytes_read, 0);
}
