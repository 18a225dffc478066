use mediafinder::index::update::Change;
use mediafinder::watch::describe;

#[test]
fn dong_xoa_ghi_o_va_frn() {
    let c = Change::Gone { volume: b'D', frn: 4711 };
    assert_eq!(describe(&c), "D: XOÁ      frn=4711");
}

#[test]
fn dong_co_mat_ghi_ten_va_thu_muc_cha() {
    let c = Change::Present { volume: b'E', frn: 12, parent_frn: 5, name: "clip.mp4".to_string(), is_dir: false };
    assert_eq!(describe(&c), "E: CÓ MẶT   frn=12 cha=5 clip.mp4");
    let d = Change::Present { volume: b'E', frn: 0, parent_frn: 5, name: "Phim".to_string(), is_dir: true };
    assert_eq!(describe(&d), "E: THƯ MỤC  frn=0 cha=5 Phim");
}
