use mediafinder::media::omang::{MountedVolume, OMang};

fn vol(letter: char, network: bool, remote: Option<&str>) -> MountedVolume {
    MountedVolume { letter, network, remote: remote.map(|r| r.to_string()) }
}

fn sample() -> Vec<MountedVolume> {
    vec![
        vol('C', false, None),
        vol('y', true, Some(r"\\192.168.1.213\padoma 8")),
        vol('Z', true, Some(r"\\nas\kho")),
        vol('w', true, None),
    ]
}

#[test]
fn moi_o_trong_unc_deu_co_trong_chu() {
    let m = OMang::tu_danh_sach(&sample());
    for c in m.unc.keys() {
        assert!(m.chu.contains(c), "ổ {c} có đường dẫn UNC nhưng không nằm trong danh sách chữ ổ");
    }
}

#[test]
fn chu_o_luon_viet_hoa() {
    let m = OMang::tu_danh_sach(&sample());
    for c in &m.chu {
        assert_eq!(*c, c.to_ascii_uppercase(), "chữ ổ phải viết hoa");
    }
    for c in m.unc.keys() {
        assert_eq!(*c, c.to_ascii_uppercase(), "khoá bản đồ UNC phải viết hoa");
    }
}

#[test]
fn only_network_drives_are_listed() {
    let m = OMang::tu_danh_sach(&sample());
    assert_eq!(m.chu, vec!['Y', 'Z', 'W']);
    assert_eq!(m.unc.len(), 2);
    assert_eq!(m.unc.get(&'Y').map(String::as_str), Some(r"\\192.168.1.213\padoma 8"));
    assert!(OMang::tu_danh_sach(&[vol('C', false, None)]).chu.is_empty());
}
