use argon40::calendar::DateTime;
use argon40::config::OledPage;
use argon40::oled::{Align, Framebuffer, OledError, FONT_CHARACTERS};
use argon40::pages::{
    draw_elements, font_file, is_drawable, page_elements, picture_file, render_page, Element,
    PageContent,
};
use argon40::system_info::{FilesystemInfo, MemoryInfo, RaidInfo};

fn small() -> Vec<u8> {
    vec![0xff; FONT_CHARACTERS * 6]
}

fn regular() -> Vec<u8> {
    vec![0xff; FONT_CHARACTERS * 8 * 2]
}

fn centered(text: &str, y: usize) -> Element {
    Element::Aligned {
        text: text.to_owned(),
        x: 54,
        y,
        width: 74,
        align: Align::Center,
        large: true,
    }
}

fn disk(source: &str, total_kib: u64, used_kib: u64) -> FilesystemInfo {
    FilesystemInfo {
        source: source.to_owned(),
        mount_point: "/".to_owned(),
        total_kib,
        used_kib,
    }
}

#[test]
fn the_clock_shows_date_weekday_and_time() {
    let now = DateTime::new(2026, 8, 16, 7, 5, 59).unwrap();
    assert_eq!(
        page_elements(&PageContent::Clock { now }),
        vec![centered("AUG16", 8), centered("Sun", 24), centered("07:05", 40)]
    );
}

#[test]
fn four_processors_have_a_row_and_a_bar() {
    let usage: Vec<(String, u8)> = (0..6).map(|n| (format!("cpu{n}"), n * 20)).collect();
    let elements = page_elements(&PageContent::Cpu { usage });
    assert_eq!(elements.len(), 8);
    assert_eq!(
        elements[2],
        Element::Text { text: "cpu1: 20%".to_owned(), x: 54, y: 16, large: false }
    );
    assert_eq!(elements[3], Element::Bar { x: 54, y: 28, width: 14 });
    assert_eq!(elements[1], Element::Bar { x: 54, y: 12, width: 0 });
}

#[test]
fn three_file_systems_have_name_use_and_size() {
    let disks = vec![
        disk("/dev/mapper/a-long-name", 2048, 1024),
        disk("/dev/sda1", 0, 0),
        disk("tmpfs", 100, 99),
        disk("/dev/sdd1", 1, 1),
    ];
    let elements = page_elements(&PageContent::Storage { disks });
    assert_eq!(elements.len(), 9);
    assert_eq!(
        elements[0],
        Element::Text { text: "a-long-n".to_owned(), x: 0, y: 16, large: false }
    );
    let right = |text: &str, x: isize, y: usize, width: usize| Element::Aligned {
        text: text.to_owned(),
        x,
        y,
        width,
        align: Align::Right,
        large: false,
    };
    assert_eq!(elements[1], right("50%", 50, 16, 24));
    assert_eq!(elements[2], right("2MB", 77, 16, 51));
    assert_eq!(elements[4], right("0%", 50, 32, 24));
    assert_eq!(
        elements[6],
        Element::Text { text: "tmpfs".to_owned(), x: 0, y: 48, large: false }
    );
}

#[test]
fn an_array_has_two_titles_and_three_rows() {
    let array = RaidInfo {
        name: "md0".to_owned(),
        level: "raid5".to_owned(),
        state: "clean".to_owned(),
        devices: 4,
        degraded: 1,
    };
    let elements = page_elements(&PageContent::Raid { array: Some(array) });
    let texts: Vec<(String, isize, usize)> = elements
        .into_iter()
        .map(|element| match element {
            Element::Text { text, x, y, large: false } => (text, x, y),
            Element::Aligned { text, x, y, width: 54, align: Align::Center, large: false } => {
                (text, x, y)
            }
            other => panic!("{other:?}"),
        })
        .collect();
    assert_eq!(
        texts,
        vec![
            ("md0".to_owned(), 0, 0),
            ("raid5".to_owned(), 0, 8),
            ("State:clean".to_owned(), 54, 16),
            ("Drives:4".to_owned(), 54, 32),
            ("Failed:1".to_owned(), 54, 48),
        ]
    );
    assert!(page_elements(&PageContent::Raid { array: None }).is_empty());
}

#[test]
fn memory_temperature_and_address_are_centered() {
    let memory = MemoryInfo { total_kib: 4_000_000, available_kib: 3_000_000 };
    assert_eq!(
        page_elements(&PageContent::Ram { memory }),
        vec![centered("75%", 8), centered("of", 24), centered("4GB", 40)]
    );
    let empty = MemoryInfo { total_kib: 0, available_kib: 2 };
    assert_eq!(page_elements(&PageContent::Ram { memory: empty })[0], centered("200%", 8));
    let temperature = PageContent::Temperature {
        celsius: "41.5".to_owned(),
        fahrenheit: "106.7".to_owned(),
    };
    assert_eq!(
        page_elements(&temperature),
        vec![centered("41.5C", 16), centered("106.7F", 32)]
    );
    assert_eq!(
        page_elements(&PageContent::Ip { address: "10.0.0.7".to_owned() }),
        vec![Element::Aligned {
            text: "10.0.0.7".to_owned(),
            x: 0,
            y: 8,
            width: 128,
            align: Align::Center,
            large: true,
        }]
    );
}

#[test]
fn percentages_that_cannot_be_calculated_are_told_beforehand() {
    let ram = |available_kib: u64| PageContent::Ram {
        memory: MemoryInfo { total_kib: 1, available_kib },
    };
    assert!(is_drawable(&ram(u64::MAX / 100)));
    assert!(!is_drawable(&ram(u64::MAX / 100 + 1)));
    let mut disks = vec![disk("a", 1, 1), disk("b", 1, 1), disk("c", 1, 1)];
    disks.push(disk("d", 1, u64::MAX));
    assert!(is_drawable(&PageContent::Storage { disks: disks.clone() }));
    disks.remove(0);
    assert!(!is_drawable(&PageContent::Storage { disks }));
}

#[test]
fn pages_are_drawn_over_their_background() {
    let mut framebuffer = Framebuffer::new();
    framebuffer.clear(true);
    let page = PageContent::Raid { array: None };
    render_page(&mut framebuffer, Some(&[3, 5]), &page, &small(), &regular()).unwrap();
    assert_eq!(&framebuffer.bytes()[..3], &[3, 5, 0]);
    render_page(&mut framebuffer, None, &page, &small(), &regular()).unwrap();
    assert_eq!(framebuffer, Framebuffer::new());
}

#[test]
fn the_picture_on_the_left_is_kept() {
    let picture = vec![0x5a_u8; 1024];
    let mut framebuffer = Framebuffer::new();
    let usage = vec![("cpu0".to_owned(), 100), ("a-long-processor-name".to_owned(), 50)];
    let pages = [
        PageContent::Clock { now: DateTime::new(2026, 1, 1, 0, 0, 0).unwrap() },
        PageContent::Cpu { usage },
        PageContent::Ram { memory: MemoryInfo { total_kib: 9, available_kib: 9 } },
        PageContent::Temperature { celsius: "1".to_owned(), fahrenheit: "2".to_owned() },
    ];
    for page in pages {
        render_page(&mut framebuffer, Some(&picture), &page, &small(), &regular()).unwrap();
        for band in 0..8 {
            assert!(framebuffer.bytes()[128 * band..128 * band + 54]
                .iter()
                .all(|byte| *byte == 0x5a));
        }
        assert_ne!(framebuffer.bytes()[..], picture[..]);
    }
}

#[test]
fn a_short_font_stops_the_page() {
    let mut framebuffer = Framebuffer::new();
    let page = PageContent::Ip { address: "x".to_owned() };
    let error = render_page(&mut framebuffer, None, &page, &small(), &small()).unwrap_err();
    assert_eq!(error, OledError::ShortFont { length: 1536, expected: 4096 });
    let elements = vec![
        Element::Bar { x: 0, y: 0, width: 1 },
        Element::Text { text: "x".to_owned(), x: 50, y: 0, large: false },
        Element::Bar { x: 2, y: 0, width: 1 },
    ];
    let error = draw_elements(&mut framebuffer, &elements, &[], &regular()).unwrap_err();
    assert_eq!(error, OledError::ShortFont { length: 0, expected: 1536 });
    assert_eq!(framebuffer.pixel(0, 1), Some(true));
    assert_eq!(framebuffer.pixel(2, 0), Some(false));
}

#[test]
fn files_are_named_after_page_and_size() {
    assert_eq!(picture_file(OledPage::Clock), "bgtime.bin");
    assert_eq!(picture_file(OledPage::Cpu), "bgcpu.bin");
    assert_eq!(picture_file(OledPage::Storage), "bgstorage.bin");
    assert_eq!(picture_file(OledPage::Raid), "bgraid.bin");
    assert_eq!(picture_file(OledPage::Ram), "bgram.bin");
    assert_eq!(picture_file(OledPage::Temperature), "bgtemp.bin");
    assert_eq!(picture_file(OledPage::Ip), "bgip.bin");
    assert_eq!(font_file(6), "font8x6.bin");
    assert_eq!(font_file(8), "font16x8.bin");
    assert_eq!(font_file(12), "font16x12.bin");
    assert_eq!(font_file(48), "font64x48.bin");
}
