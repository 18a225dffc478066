use mediafinder::audit::report::{
    ext_of_name, letter_after, lost_folders, summarize, tally, Deletion, EXAMPLES,
};
use mediafinder::hotkey::HotkeyState;
use mediafinder::index::model::IndexBuilder;

fn s(v: &[&str]) -> Vec<String> {
    v.iter().map(|x| x.to_string()).collect()
}

/// 2024-03-10 12:00 UTC as a FILETIME.
const NOON: i64 = (1_710_072_000 + 11_644_473_600) * 10_000_000;

fn file(frn: u64, parent: u64, name: &str, ft: i64) -> Deletion {
    Deletion { frn, parent_frn: parent, name: name.to_string(), is_dir: false, filetime: ft }
}

fn dir(frn: u64, parent: u64, name: &str) -> Deletion {
    Deletion { frn, parent_frn: parent, name: name.to_string(), is_dir: true, filetime: NOON }
}

#[test]
fn chu_o_sau_co_audit_viet_hoa() {
    let a = "--audit";
    assert_eq!(letter_after(&s(&["mediafinder.exe", "--audit", "d"]), a), Some('D'));
    assert_eq!(letter_after(&s(&["x", "--audit", "E:", "--audit", "f"]), a), Some('E'));
    assert_eq!(letter_after(&s(&["mediafinder.exe", "--audit"]), a), None);
    assert_eq!(letter_after(&s(&["mediafinder.exe", "--index"]), a), None);
    assert_eq!(letter_after(&s(&["--audit", ""]), a), None);
    assert_eq!(letter_after(&s(&["--watch", "c", "--audit", "d"]), "--watch"), Some('C'));
}

#[test]
fn duoi_tep_sau_dau_cham_cuoi_viet_thuong() {
    assert_eq!(ext_of_name("Clip.Final.MP4"), "mp4");
    assert_eq!(ext_of_name("README"), "");
    assert_eq!(ext_of_name("anh."), "");
    assert_eq!(ext_of_name(".JPG"), "jpg");
}

#[test]
fn dem_theo_khoa_theo_thu_tu_byte() {
    let t = tally(&s(&["b", "a", "b", "Z", "a", "b"]));
    assert_eq!(t, vec![("Z".to_string(), 1), ("a".to_string(), 2), ("b".to_string(), 3)]);
    assert!(tally(&Vec::new()).is_empty());
}

#[test]
fn tom_tat_dem_tep_theo_gio_va_duoi() {
    let hour = 36_000_000_000i64;
    let dels = vec![
        file(1, 9, "a.JPG", NOON),
        dir(2, 9, "cu"),
        file(3, 9, "b.jpg", NOON + 1),
        file(4, 9, "c.mp4", NOON + hour),
        file(5, 9, "d.mov", NOON),
    ];
    let r = summarize(&dels);
    assert_eq!(r.files, 4);
    assert_eq!(r.dirs, 1);
    assert_eq!(
        r.per_hour,
        vec![("2024-03-10 12h".to_string(), 3), ("2024-03-10 13h".to_string(), 1)]
    );
    assert_eq!(
        r.per_ext,
        vec![("jpg".to_string(), 2), ("mov".to_string(), 1), ("mp4".to_string(), 1)]
    );
    assert_eq!(r.examples.len(), 4);
    assert_eq!(r.examples[0], ("a.JPG".to_string(), "2024-03-10 12h".to_string()));
    assert_eq!(r.examples[2], ("c.mp4".to_string(), "2024-03-10 13h".to_string()));
}

#[test]
fn chi_giu_muoi_hai_duoi_va_tam_vi_du() {
    let mut dels = Vec::new();
    for i in 0..20u64 {
        for _ in 0..(i + 1) {
            dels.push(file(i, 1, &format!("x.e{i:02}"), NOON));
        }
    }
    let r = summarize(&dels);
    assert_eq!(r.per_ext.len(), 12);
    assert_eq!(r.per_ext[0], ("e19".to_string(), 20));
    assert_eq!(r.per_ext[11], ("e08".to_string(), 9));
    assert_eq!(r.examples.len(), EXAMPLES);
}

#[test]
fn thu_muc_mat_tep_dung_lai_duong_dan_tu_ban_ghi_xoa() {
    let mut b = IndexBuilder::new();
    b.add_dir(r"D:\Phim", 100);
    b.add_dir(r"E:\Khac", 200);
    let ix = b.finish();
    let dels = vec![
        dir(300, 100, "2023"),
        dir(400, 300, "Tet"),
        file(1, 400, "a.mp4", NOON),
        file(2, 400, "b.mp4", NOON),
        file(3, 100, "c.mp4", NOON),
        file(4, 999, "d.mp4", NOON),
        file(5, 200, "e.mp4", NOON),
    ];
    let r = lost_folders(&dels, &ix, b'd');
    assert_eq!(r.dir_total, 2);
    assert_eq!(
        r.per_dir,
        vec![(r"D:\Phim\2023\Tet".to_string(), 2), (r"D:\Phim".to_string(), 1)]
    );
    // The parent on E: belongs to another drive, and 999 is nowhere.
    assert_eq!(r.unknown, 2);
    assert_eq!(r.roots, vec![r"D:\Phim\2023".to_string()]);
}

#[test]
fn vong_lap_cha_con_dung_sau_64_buoc() {
    let ix = IndexBuilder::new().finish();
    let dels = vec![dir(7, 7, "vong"), file(1, 7, "a.mp4", NOON)];
    let r = lost_folders(&dels, &ix, b'C');
    assert_eq!(r.unknown, 1);
    assert_eq!(r.dir_total, 0);
    assert!(r.roots.is_empty());
}

#[test]
fn phim_tat_dang_dung_va_co_active_di_cung_nhau() {
    let mut h = HotkeyState::new();
    assert!(!h.active());
    assert_eq!(h.in_use(), "");
    h.set_in_use("Ctrl+Alt+F");
    assert!(h.active());
    assert!(h.is_fallback());
    assert_eq!(h.in_use(), "Ctrl+Alt+F");
    h.set_in_use("Ctrl+Alt+Space");
    assert!(!h.is_fallback());
    h.set_in_use("");
    assert!(!h.active());
    assert!(!h.is_fallback());
}
