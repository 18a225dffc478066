use mediafinder::freshness::build;


#[test]
fn tach_o_trong_may_khoi_o_mang() {
    let f = build(1_700_000_000, &[('C', 10), ('D', 20), ('Y', 30)], &['Y']);
    assert_eq!(
        f.local
            .iter()
            .map(|v| v.letter.as_str())
            .collect::<Vec<_>>(),
        ["C", "D"]
    );
    assert_eq!(
        f.network
            .iter()
            .map(|v| v.letter.as_str())
            .collect::<Vec<_>>(),
        ["Y"]
    );
    assert_eq!(f.built_at_unix, 1_700_000_000);
}

#[test]
fn nhan_ra_o_mang_anh_xa_du_duong_dan_trong_khong_khac_gi_dia_trong_may() {
    // `Y:\…` trong chỉ mục trông y hệt một đĩa cắm trong máy. Chỉ danh
    // sách ổ đang gắn mới phân biệt được — thiếu nó thì mọi ổ NAS bị xếp
    // nhầm vào nhóm "quét mỗi ngày", và câu thông báo sai hoàn toàn.
    let f = build(0, &[('Y', 5)], &[]);
    assert_eq!(
        f.local.len(),
        1,
        "thiếu danh sách ổ mạng thì Y: là ổ nội bộ"
    );

    let f = build(0, &[('Y', 5)], &['Y']);
    assert_eq!(f.network.len(), 1);
    assert!(f.local.is_empty());
}

#[test]
fn chu_thuong_va_chu_hoa_la_cung_mot_o() {
    let f = build(0, &[('y', 5)], &['Y']);
    assert_eq!(f.network.len(), 1, "y: và Y: phải là cùng một ổ");
    assert_eq!(f.network[0].letter, "Y", "nhãn phải viết hoa");
    assert!(f.unscanned_network.is_empty());
}

#[test]
fn o_mang_gan_nhung_chua_tung_quet_duoc_bao_rieng() {
    // Ổ này khác "ổ mạng cũ": MỌI tệp trên nó đều vô hình, không phải chỉ
    // vài tệp mới. Gộp chung thì người dùng bấm "quét lại" và tưởng mình
    // đã cập nhật, trong khi ổ đó chưa bao giờ được đụng tới.
    let f = build(1_700_000_000, &[('C', 10)], &['Y', 'Z']);
    assert_eq!(f.unscanned_network, ["Y", "Z"]);
    assert!(f.network.is_empty());
}

#[test]
fn o_mang_da_quet_roi_thi_khong_con_bao_la_chua_quet() {
    // Lỗi người dùng bắt được ngay lượt thử đầu, và nó SỐNG SÓT qua cả năm
    // ca kiểm thử ở trên: sau khi quét ổ mạng xong, app vẫn báo "ổ mạng
    // chưa được quét lần nào" — vĩnh viễn.
    //
    // Gốc: bản đầu đọc số tệp từ trường `volumes` của cache, mà ổ mạng CỐ Ý
    // không có dòng nào trong đó (không có journal để ghi vị trí con trỏ).
    // Nên "không có dòng" bị hiểu thành "chưa quét", trong khi nó nghĩa là
    // "loại ổ này không dùng journal".
    //
    // Nay đếm từ chính chỉ mục, nên hễ có tệp trên ổ đó là biết đã quét.
    let f = build(1_700_000_000, &[('C', 10), ('Y', 159_095)], &['Y']);
    assert!(
        f.unscanned_network.is_empty(),
        "ổ Y: có 159.095 tệp trong chỉ mục mà vẫn bị coi là chưa quét"
    );
    assert_eq!(f.network.len(), 1);
    assert_eq!(f.network[0].file_count, 159_095);
}

#[test]
fn chi_o_mang_khong_co_tep_nao_moi_bi_goi_la_chua_quet() {
    // Ranh giới đúng: quét rồi (dù chỉ vài tệp) khác hẳn chưa quét lần nào.
    let f = build(1_700_000_000, &[('C', 10), ('Y', 1)], &['Y', 'Z']);
    assert_eq!(f.unscanned_network, ["Z"], "chỉ Z: mới là ổ chưa quét");
}

#[test]
fn chua_co_chi_muc_thi_khong_no_va_khong_bia_ra_gi() {
    let f = build(0, &[], &[]);
    assert_eq!(f.built_at_unix, 0);
    assert!(f.local.is_empty() && f.network.is_empty());
    assert!(f.unscanned_network.is_empty());
}
