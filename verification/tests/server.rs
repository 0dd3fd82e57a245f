use std::io::Read;

use pixelmap::chunk::{AddError, Chunk, Session};
use pixelmap::common::is_numeric;
use pixelmap::files::served_path;
use pixelmap::pixel::Pixel;
use pixelmap::store::{encode_colors, leaf_colors, save_path};
use pixelmap::ws::{heartbeat, HandleRequestError, HeartbeatAction, WebSocketServer, WsAction, WsEvent};

fn unzip(data: &[u8]) -> Vec<u8> {
    let mut out = Vec::new();
    flate2::read::ZlibDecoder::new(data).read_to_end(&mut out).unwrap();
    out
}

#[test]
fn is_numeric_reads_i32() {
    assert!(is_numeric("0"));
    assert!(is_numeric("-2147483648"));
    assert!(is_numeric("+2147483647"));
    assert!(is_numeric("000000000000000012"));
    assert!(!is_numeric("2147483648"));
    assert!(!is_numeric("-2147483649"));
    assert!(!is_numeric(""));
    assert!(!is_numeric("-"));
    assert!(!is_numeric("12a"));
    assert!(!is_numeric(" 1"));
}

#[test]
fn encode_colors_is_bincode_of_the_colours() {
    let pixels = vec![
        vec![Pixel { color: -1, x: 0, y: 0 }, Pixel { color: 5, x: 0, y: 0 }],
        vec![Pixel { color: 127, x: 3, y: 4 }],
    ];
    let bytes = encode_colors(&pixels).unwrap();
    assert_eq!(
        bytes,
        vec![2, 0, 0, 0, 0, 0, 0, 0, 2, 0, 0, 0, 0, 0, 0, 0, 0xff, 5, 1, 0, 0, 0, 0, 0, 0, 0, 127]
    );
    assert_eq!(leaf_colors(&pixels), vec![vec![-1i8, 5], vec![127]]);
    assert_eq!(bincode::serialize(&leaf_colors(&pixels)).unwrap(), bytes);
}

#[test]
fn save_files_one_per_leaf() {
    let mut root = Chunk::Container {
        id: "map".to_string(),
        childrens: vec![
            Chunk::new_leaf("map", (0, 0)),
            Chunk::Container { id: "sub".to_string(), childrens: vec![Chunk::new_leaf("map", (1, 0))] },
        ],
    };
    root.add_pixel(&[Pixel { color: 7, x: 0, y: 0 }], "").unwrap();
    let files = root.save_files().unwrap();
    assert_eq!(files.len(), 2);
    assert_eq!(files[0].path, "./map/0_0.chunk.gz");
    assert_eq!(files[1].path, "./map/1_0.chunk.gz");
    let raw = unzip(&files[0].data);
    assert_ne!(raw, files[0].data);
    assert_eq!(raw.len(), 8 + 256 * (8 + 256));
    assert_eq!(&raw[..8], &[0, 1, 0, 0, 0, 0, 0, 0]);
    assert_eq!(&raw[8..16], &[0, 1, 0, 0, 0, 0, 0, 0]);
    assert_eq!(raw[16], 7);
    assert_eq!(raw[17], 0xff);
    match &root {
        Chunk::Container { childrens, .. } => match &childrens[0] {
            Chunk::Leaf { pixels, .. } => assert_eq!(raw, encode_colors(pixels).unwrap()),
            _ => panic!("not a leaf"),
        },
        _ => panic!("not a container"),
    }
    assert!(unzip(&files[1].data)[16..].iter().all(|b| *b == 0xff || *b == 0 || *b == 1));
}

#[test]
fn save_path_of_a_leaf() {
    assert_eq!(save_path("map/2_3"), "./map/2_3.chunk.gz");
}

#[test]
fn served_path_follows_the_front_end_rules() {
    assert_eq!(served_path(""), "files/index.html");
    assert_eq!(served_path("/"), "files/index.html");
    assert_eq!(served_path("test"), "files/test.html");
    assert_eq!(served_path("app.js"), "files/app.js");
    assert_eq!(served_path("css/site.css"), "files/css/site.css");
    assert_eq!(served_path("v1.2/page"), "files/v1.2/page.html");
    assert_eq!(served_path(".hidden"), "files/.hidden.html");
    // the extension is that of the last component, as `Path` sees it
    assert_eq!(served_path("css/site.css/"), "files/css/site.css/");
    assert_eq!(served_path("page/./"), "files/page/./.html");
    assert_eq!(served_path("x.y/.."), "files/x.y/...html");
    assert_eq!(served_path("a.b//c"), "files/a.b//c.html");
}

#[test]
fn save_succeeds_on_the_starting_map() {
    let files = Chunk::new_root().save_files().unwrap();
    assert_eq!(files.len(), 1);
    assert_eq!(files[0].path, "./map/0_0.chunk.gz");
}

fn text(s: &str) -> WsAction {
    WebSocketServer::new().handle(&WsEvent::Text(s.to_string()))
}

#[test]
fn text_messages() {
    match text("/send [{\"color\":1,\"x\":2,\"y\":3}]") {
        WsAction::Submit(p) => assert_eq!(p, "[{\"color\":1,\"x\":2,\"y\":3}]"),
        a => panic!("unexpected {:?}", a),
    }
    match text("/send  two spaces") {
        WsAction::Submit(p) => assert_eq!(p, " two spaces"),
        a => panic!("unexpected {:?}", a),
    }
    assert!(matches!(text("/send"), WsAction::MissingArgument));
    assert!(matches!(text("/register"), WsAction::MissingArgument));
    assert!(matches!(text("/register 1/2/3"), WsAction::CoordinatesMissing));
    assert!(matches!(text("/register   10/-2/+3 \t"), WsAction::CoordinatesMissing));
    assert!(matches!(text("/register 1/2"), WsAction::InvalidAddress));
    assert!(matches!(text("/register map/2/3"), WsAction::InvalidAddress));
    assert!(matches!(text("/register 1/2/3/4/5/6/7/8/9/10/11/12/13/14/15/16/17"), WsAction::InvalidAddress));
    assert!(matches!(text("hello"), WsAction::Ignore));
    assert!(matches!(text("/other thing"), WsAction::Ignore));
    assert!(matches!(text(""), WsAction::Ignore));
}

#[test]
fn other_messages() {
    let s = WebSocketServer::new();
    assert!(matches!(s.handle(&WsEvent::Ping), WsAction::Pong));
    assert!(matches!(s.handle(&WsEvent::Pong), WsAction::Heartbeat));
    assert!(matches!(s.handle(&WsEvent::Binary), WsAction::Echo));
    assert!(matches!(s.handle(&WsEvent::Close), WsAction::Close));
    assert!(matches!(s.handle(&WsEvent::Other), WsAction::Stop));
}

#[test]
fn new_session_is_blank() {
    let s = WebSocketServer::new();
    assert_eq!(s.id, 0);
    assert!(s.chunks_adress.iter().all(|a| a.is_empty()));
}

#[test]
fn handle_request_paints_and_saves() {
    let server = WebSocketServer::new();
    let mut map = Chunk::new_root();
    map.add_session(&Session { id: 4 }, "map/0_0").unwrap();
    assert!(matches!(
        server.handle_request(&mut map, None),
        Err(HandleRequestError::ImpossibleToHandle)
    ));
    let pixels = [Pixel { color: 12, x: 3, y: 4 }];
    let effect = server.handle_request(&mut map, Some(&pixels)).unwrap();
    assert_eq!(effect.added.unwrap(), vec![Session { id: 4 }]);
    let files = effect.saved.unwrap();
    assert_eq!(files.len(), 1);
    assert_eq!(files[0].path, "./map/0_0.chunk.gz");
    let raw = unzip(&files[0].data);
    assert_eq!(raw[8 + 3 * (8 + 256) + 8 + 4], 12);

    let mut empty = Chunk::Container { id: "e".to_string(), childrens: vec![] };
    let effect = server.handle_request(&mut empty, Some(&pixels)).unwrap();
    assert!(matches!(effect.added, Err(AddError::NotLeaf)));
    assert_eq!(effect.saved.unwrap().len(), 0);
}

#[test]
fn heartbeat_stops_after_ten_seconds() {
    assert_eq!(heartbeat(0, 0), HeartbeatAction::Ping);
    assert_eq!(heartbeat(10, 0), HeartbeatAction::Ping);
    assert_eq!(heartbeat(10, 1), HeartbeatAction::Stop);
    assert_eq!(heartbeat(11, 0), HeartbeatAction::Stop);
}

#[test]
fn check_address_wants_three_to_sixteen_integers() {
    assert!(pixelmap::ws::check_address("0/1/2"));
    assert!(pixelmap::ws::check_address("-1/+2/0003"));
    assert!(!pixelmap::ws::check_address("0/1"));
    assert!(pixelmap::ws::check_address("0/1/2/3/4/5/6/7/8/9/10/11/12/13/14/15"));
    assert!(!pixelmap::ws::check_address("0/1/2/3/4/5/6/7/8/9/10/11/12/13/14/15/16"));
    assert!(!pixelmap::ws::check_address("0/x/2"));
    assert!(!pixelmap::ws::check_address(" 0/1/2"));
    assert!(!pixelmap::ws::check_address(""));
}

#[test]
fn register_trims_unicode_whitespace() {
    assert!(matches!(text("/register \u{3000}1/2/3\u{2003}\n"), WsAction::CoordinatesMissing));
    assert!(matches!(text("/register \u{a0}\u{85}"), WsAction::InvalidAddress));
    assert!(matches!(text("/register 1/\u{2003}2/3"), WsAction::InvalidAddress));
}
