use pixelmap::chunk::{AddError, AddSessionError, Chunk, GetError, Session};
use pixelmap::pixel::Pixel;
use pixelmap::scan::scan_pixels;

// Test str to pixel
#[test]
fn test_str_to_pixel() {
    let pixel = Pixel::from_string("001001-01");
    match pixel {
        Some(pixel) => {
            assert_eq!(pixel.x, 1);
            assert_eq!(pixel.y, 1);
            assert_eq!(pixel.color, -1);
        }
        None => panic!("pixel is None"),
    }
    // wrog length
    let pixel = Pixel::from_string("00100010101010101");
    assert!(pixel.is_none());

    // max than 1 Byte
    let pixel = Pixel::from_string("257-01000");
    assert!(pixel.is_none());
}

#[test]
fn test_str_to_pixel_vec() {
    let pixels = Chunk::from_string("003000000\n");
    assert_eq!(pixels.len(), 1);
    println!("{:?}", pixels);
    assert!(pixels[0].x == 3);
    assert!(pixels[0].y == 0);
    assert!(pixels[0].color == 0);
    let pixels = Chunk::from_string("003020-20\n");
    assert_eq!(pixels.len(), 1);
    println!("{:?}", pixels);
    assert!(pixels[0].x == 3);
    assert!(pixels[0].y == 20);
    assert!(pixels[0].color == -20);

    // u8 oversize
    let pixels = Chunk::from_string("000380-25\n");
    assert_eq!(pixels.len(), 1);

    let pixelsize = Chunk::from_string("0000000380-925\n");
    assert_eq!(pixelsize.len(), 0);
}

#[test]
fn pixel_from_string_reads_each_field() {
    assert_eq!(
        Pixel::from_string("255000127"),
        Some(Pixel { color: 127, x: 255, y: 0 })
    );
    assert_eq!(
        Pixel::from_string("+01+02-99"),
        Some(Pixel { color: -99, x: 1, y: 2 })
    );
    // a sign is not a digit of an unsigned coordinate
    assert_eq!(Pixel::from_string("-01002003"), None);
    // colour out of the range of i8
    assert_eq!(Pixel::from_string("001002128"), None);
    // too short
    assert_eq!(Pixel::from_string("00100200"), None);
    // nine bytes, but a two-byte character among them
    assert_eq!(Pixel::from_string("é1002003"), None);
}

#[test]
fn pixel_default_is_blank() {
    let p = Pixel::default();
    assert_eq!(p, Pixel { color: -1, x: 0, y: 0 });
}

#[test]
fn pixel_to_string_pads_to_three() {
    assert_eq!(Pixel { color: -1, x: 1, y: 2 }.to_string(), "001002-01\n");
    assert_eq!(Pixel { color: 5, x: 255, y: 20 }.to_string(), "255020005\n");
    assert_eq!(Pixel { color: -100, x: 0, y: 0 }.to_string(), "000000-100\n");
}

#[test]
fn pixel_text_reads_back() {
    for p in [
        Pixel { color: -99, x: 0, y: 255 },
        Pixel { color: 127, x: 17, y: 3 },
        Pixel { color: 0, x: 200, y: 100 },
    ] {
        let text = p.to_string();
        assert_eq!(Pixel::from_string(&text[..9]), Some(p));
        assert_eq!(Chunk::from_string(&text), vec![p]);
    }
}

#[test]
fn tile_reader_reads_lines_in_order() {
    let text = "001002003\n004005-06\n";
    let pixels = Chunk::from_string(text);
    assert_eq!(
        pixels,
        vec![Pixel { color: 3, x: 1, y: 2 }, Pixel { color: -6, x: 4, y: 5 }]
    );
    // a line without its newline gives nothing
    assert_eq!(Chunk::from_string("001002003").len(), 0);
    // characters that are neither numeric nor '-' are skipped
    assert_eq!(
        Chunk::from_string("0a0b1002003\n"),
        vec![Pixel { color: 3, x: 1, y: 2 }]
    );
}

#[test]
fn tile_reader_keeps_numeric_characters() {
    // U+0663 ARABIC-INDIC DIGIT THREE is numeric and takes two bytes: the
    // line keeps nine bytes, and the first field does not read as a u8.
    let pixels = Chunk::from_string("\u{0663}0000000\n");
    assert_eq!(pixels, vec![Pixel { color: 0, x: 0, y: 0 }]);
}

#[test]
fn new_root_holds_one_blank_leaf() {
    let root = Chunk::new_root();
    match &root {
        Chunk::Container { id, childrens } => {
            assert_eq!(id, "map");
            assert_eq!(childrens.len(), 1);
        }
        Chunk::Leaf { .. } => panic!("root is a leaf"),
    }
    match root.get_chunk("map/0_0") {
        Ok(Chunk::Leaf { id, sessions, pixels }) => {
            assert_eq!(id, "map/0_0");
            assert!(sessions.is_empty());
            assert_eq!(pixels.len(), 256);
            assert!(pixels.iter().all(|row| row.len() == 256));
            assert_eq!(pixels[17][200], Pixel { color: -1, x: 0, y: 0 });
        }
        _ => panic!("leaf not found"),
    }
}

#[test]
fn new_leaf_names_its_place() {
    match Chunk::new_leaf("map", (12, 305)) {
        Chunk::Leaf { id, .. } => assert_eq!(id, "map/12_305"),
        Chunk::Container { .. } => panic!("not a leaf"),
    }
}

#[test]
fn get_chunk_errors() {
    let root = Chunk::new_root();
    assert!(matches!(root.get_chunk("map/1_0"), Err(GetError::NotFound)));
    let leaf = Chunk::new_leaf("map", (0, 0));
    assert!(matches!(leaf.get_chunk("other"), Err(GetError::NotAdress)));
}

#[test]
fn get_chunk_stops_at_a_container_without_the_address() {
    let inner = Chunk::Container { id: "inner".to_string(), childrens: vec![Chunk::new_leaf("a", (0, 0))] };
    let root = Chunk::Container {
        id: "root".to_string(),
        childrens: vec![inner, Chunk::new_leaf("b", (0, 0))],
    };
    assert!(matches!(root.get_chunk("b/0_0"), Err(GetError::NotFound)));
    assert!(matches!(root.get_chunk("a/0_0"), Ok(Chunk::Leaf { .. })));
}

#[test]
fn add_session_then_get_finds_it() {
    let mut root = Chunk::new_root();
    let s = Session { id: 7 };
    assert!(root.add_session(&s, "map/0_0").is_ok());
    match root.get_chunk("map/0_0") {
        Ok(Chunk::Leaf { sessions, .. }) => assert_eq!(sessions, &vec![Session { id: 7 }]),
        _ => panic!("leaf not found"),
    }
    assert!(matches!(root.add_session(&s, "map/9_9"), Err(AddSessionError::NotFound)));
}

#[test]
fn add_session_searches_past_containers() {
    let inner = Chunk::Container { id: "inner".to_string(), childrens: vec![] };
    let mut root = Chunk::Container {
        id: "root".to_string(),
        childrens: vec![inner, Chunk::new_leaf("b", (0, 0))],
    };
    assert!(root.add_session(&Session { id: 1 }, "b/0_0").is_ok());
}

#[test]
fn add_pixel_paints_the_first_leaf() {
    let mut root = Chunk::new_root();
    root.add_session(&Session { id: 3 }, "map/0_0").unwrap();
    let adds = [
        Pixel { color: 5, x: 1, y: 2 },
        Pixel { color: 9, x: 255, y: 255 },
        Pixel { color: 6, x: 1, y: 2 },
    ];
    let sessions = root.add_pixel(&adds, "ignored").unwrap();
    assert_eq!(sessions, vec![Session { id: 3 }]);
    match root.get_chunk("map/0_0") {
        Ok(Chunk::Leaf { pixels, .. }) => {
            assert_eq!(pixels[1][2], Pixel { color: 6, x: 0, y: 0 });
            assert_eq!(pixels[255][255].color, 9);
            assert_eq!(pixels[2][1].color, -1);
        }
        _ => panic!("leaf not found"),
    }
}

#[test]
fn add_pixel_without_leaf_is_not_leaf() {
    let mut root = Chunk::Container { id: "root".to_string(), childrens: vec![] };
    let adds = [Pixel { color: 5, x: 1, y: 2 }];
    assert!(root.pixels_fit(&adds));
    assert!(matches!(root.add_pixel(&adds, ""), Err(AddError::NotLeaf)));
}

#[test]
fn pixels_fit_checks_the_first_leaf() {
    let small = Chunk::Leaf { id: "s".to_string(), sessions: vec![], pixels: vec![vec![Pixel::default(); 2]; 2] };
    assert!(small.pixels_fit(&[Pixel { color: 1, x: 1, y: 1 }]));
    assert!(!small.pixels_fit(&[Pixel { color: 1, x: 2, y: 0 }]));
    assert!(Chunk::new_root().pixels_fit(&[Pixel { color: 1, x: 255, y: 255 }]));
}

#[test]
fn tile_text_of_a_leaf() {
    let mut root = Chunk::new_root();
    root.add_pixel(&[Pixel { color: 42, x: 0, y: 1 }], "").unwrap();
    let leaf = root.get_chunk("map/0_0").unwrap();
    let text = leaf.tile_csv().unwrap();
    assert_eq!(text.len(), 255 * 255 * 10);
    assert!(text.starts_with("000000-01\n000001042\n000002-01\n"));
    assert!(text.ends_with("254254-01\n"));
    let back = Chunk::from_string(&text);
    assert_eq!(back.len(), 255 * 255);
    assert_eq!(back[1], Pixel { color: 42, x: 0, y: 1 });
    assert_eq!(back[255], Pixel { color: -1, x: 1, y: 0 });
    assert!(root.tile_csv().is_none());
}

#[test]
fn scan_pixels_refuses_a_cut_inside_a_character() {
    // three two-byte numeric characters: the first field would end at byte 3,
    // inside the second character
    assert_eq!(scan_pixels("\u{0663}\u{0663}\u{0663}000000\n"), None);
    assert_eq!(scan_pixels("001002003\n"), Some(vec![Pixel { color: 3, x: 1, y: 2 }]));
    // a stray character after a full field asks for the next field too early
    assert_eq!(scan_pixels("003 000000\n"), None);
}

#[test]
fn text_after_the_last_newline_gives_no_pixel() {
    assert_eq!(Chunk::from_string("001002003\n004005006"), vec![Pixel { color: 3, x: 1, y: 2 }]);
}

#[test]
fn lines_are_read_one_by_one() {
    let a = "001002003\n00400\n";
    let b = "007008-09\n";
    let mut both = Chunk::from_string(a);
    both.extend(Chunk::from_string(b));
    assert_eq!(Chunk::from_string(&format!("{}{}", a, b)), both);
}

#[test]
fn painting_twice_is_painting_once() {
    let adds = [Pixel { color: 1, x: 3, y: 3 }, Pixel { color: 2, x: 3, y: 3 }, Pixel { color: 4, x: 0, y: 9 }];
    let mut once = Chunk::new_root();
    once.add_session(&Session { id: 2 }, "map/0_0").unwrap();
    let first = once.add_pixel(&adds, "").unwrap();
    let once_text = once.get_chunk("map/0_0").unwrap().tile_csv().unwrap();
    let second = once.add_pixel(&adds, "").unwrap();
    assert_eq!(first, second);
    assert_eq!(once.get_chunk("map/0_0").unwrap().tile_csv().unwrap(), once_text);
}

#[test]
fn clone_copies_the_whole_map() {
    let mut map = Chunk::new_root();
    map.add_session(&Session { id: 4 }, "map/0_0").unwrap();
    map.add_pixel(&[Pixel { color: 9, x: 1, y: 2 }], "").unwrap();
    let copy = map.clone();
    map.add_pixel(&[Pixel { color: 3, x: 1, y: 2 }], "").unwrap();
    match copy.get_chunk("map/0_0").unwrap() {
        Chunk::Leaf { id, sessions, pixels } => {
            assert_eq!(id, "map/0_0");
            assert_eq!(sessions, &vec![Session { id: 4 }]);
            assert_eq!(pixels[1][2].color, 9);
        }
        _ => panic!("expected a leaf"),
    }
}
