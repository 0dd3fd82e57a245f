//! What a websocket session decides: the answer to each message a client
//! sends, the effect of a submitted batch of pixels on the map, and when a
//! silent client is dropped. Sending, timing and locking are the caller's.
use vstd::prelude::*;

use crate::chunk::{add_pixel_fits, add_pixel_view, AddError, Chunk, ChunkView, Session};
use crate::pixel::Pixel;
use crate::store::{files_view, leaf_file, leaves, SaveError, SaveFile};
use crate::text::{collect_chars, lemma_segments_step, parse_decimal, parse_int, push_char, segments};

verus! {

/// Seconds between two heartbeat checks.
pub const HEARTBEAT_INTERVAL_SECS: u64 = 5;

/// Seconds of silence after which a client is dropped.
pub const CLIENT_TIMEOUT_SECS: u64 = 10;

/// The state of one websocket session.
pub struct WebSocketServer {
    pub chunks_adress: [String; 9],
    pub id: usize,
}

/// A message from the client, as far as the decisions need it.
pub enum WsEvent {
    Ping,
    Pong,
    Text(String),
    Binary,
    Close,
    /// Any other frame, or a protocol error.
    Other,
}

/// What the session does about a message.
#[derive(Debug)]
pub enum WsAction {
    /// Note the client as alive and answer the ping with the same payload.
    Pong,
    /// Note the client as alive.
    Heartbeat,
    /// Hand the text after `/send ` to `handle_request`.
    Submit(String),
    /// A `/register` whose address is malformed: report it, nothing else.
    InvalidAddress,
    /// A `/register` whose address passes the check: the check reads every
    /// segment of the address, so none is left to read the coordinates from,
    /// and the handler fails.
    CoordinatesMissing,
    /// `/send` or `/register` without a space after it: there is no argument
    /// to read, and the handler fails.
    MissingArgument,
    /// Send the binary payload back.
    Echo,
    /// Close with the client's reason and stop.
    Close,
    /// Stop the session.
    Stop,
    /// Nothing to do.
    Ignore,
}

/// What a text message asks for.
pub ghost enum TextOutcome {
    Submit(Seq<char>),
    InvalidAddress,
    CoordinatesMissing,
    MissingArgument,
    Ignore,
}

/// The first index from `i` on where `t` holds a space, or `t.len()`.
pub open spec fn first_space(t: Seq<char>, i: int) -> int
    decreases t.len() - i,
{
    if i < 0 || i >= t.len() {
        t.len() as int
    } else if t[i] == ' ' {
        i
    } else {
        first_space(t, i + 1)
    }
}

/// Whether `char::is_whitespace` holds of `c`: the Unicode White_Space
/// property, 25 code points.
pub open spec fn whitespace_char(c: char) -> bool {
    let u = c as u32;
    ||| 0x9 <= u <= 0xD
    ||| u == 0x20
    ||| u == 0x85
    ||| u == 0xA0
    ||| u == 0x1680
    ||| 0x2000 <= u <= 0x200A
    ||| u == 0x2028
    ||| u == 0x2029
    ||| u == 0x202F
    ||| u == 0x205F
    ||| u == 0x3000
}

/// `t` without its leading and trailing whitespace.
pub open spec fn trim_ws(t: Seq<char>) -> Seq<char>
    decreases t.len(),
{
    if t.len() > 0 && whitespace_char(t[0]) {
        trim_ws(t.drop_first())
    } else if t.len() > 0 && whitespace_char(t.last()) {
        trim_ws(t.drop_last())
    } else {
        t
    }
}

/// What `str::to_lowercase` makes of `t`.
pub uninterp spec fn lowercase(t: Seq<char>) -> Seq<char>;

/// Whether `c` is whitespace (`whitespace_char`).
fn is_whitespace(c: char) -> (r: bool)
    ensures
        r == whitespace_char(c),
{
    let u = c as u32;
    (0x9 <= u && u <= 0xD) || u == 0x20 || u == 0x85 || u == 0xA0 || u == 0x1680 || (0x2000 <= u
        && u <= 0x200A) || u == 0x2028 || u == 0x2029 || u == 0x202F || u == 0x205F || u == 0x3000
}

/// Trimming `t` leaves the chars from `lo` to `hi` when everything before `lo`
/// and from `hi` on is whitespace and the chars at both ends of that range are not.
proof fn lemma_trim_ws_range(t: Seq<char>, lo: int, hi: int)
    requires
        0 <= lo <= hi <= t.len(),
        forall|i: int| 0 <= i < lo ==> whitespace_char(#[trigger] t[i]),
        forall|i: int| hi <= i < t.len() ==> whitespace_char(#[trigger] t[i]),
        lo < hi ==> !whitespace_char(t[lo]) && !whitespace_char(t[hi - 1]),
    ensures
        trim_ws(t) == t.subrange(lo, hi),
    decreases t.len(),
{
    if t.len() > 0 && whitespace_char(t[0]) {
        let u = t.drop_first();
        if lo > 0 {
            assert forall|i: int| 0 <= i < lo - 1 implies whitespace_char(#[trigger] u[i]) by {
                assert(u[i] == t[i + 1]);
            }
            assert forall|i: int| hi - 1 <= i < u.len() implies whitespace_char(#[trigger] u[i]) by {
                assert(u[i] == t[i + 1]);
            }
            lemma_trim_ws_range(u, lo - 1, hi - 1);
            assert(u.subrange(lo - 1, hi - 1) =~= t.subrange(lo, hi));
        } else {
            assert forall|i: int| 0 <= i < u.len() implies whitespace_char(#[trigger] u[i]) by {
                assert(u[i] == t[i + 1]);
            }
            lemma_trim_ws_range(u, 0, 0);
            assert(u.subrange(0, 0) =~= t.subrange(lo, hi));
        }
    } else if t.len() > 0 && whitespace_char(t.last()) {
        let u = t.drop_last();
        assert(hi < t.len());
        lemma_trim_ws_range(u, lo, hi);
        assert(u.subrange(lo, hi) =~= t.subrange(lo, hi));
    } else {
        if t.len() > 0 {
            assert(lo == 0);
            assert(hi == t.len());
        }
        assert(t.subrange(lo, hi) =~= t);
    }
}

/// `s` without its leading and trailing whitespace, as `str::trim` gives it.
fn trim_text(s: &str) -> (r: String)
    ensures
        r@ == trim_ws(s@),
{
    let chars = collect_chars(s);
    let n = chars.len();
    let mut lo: usize = 0;
    while lo < n && is_whitespace(chars[lo])
        invariant
            lo <= n == chars.len(),
            forall|i: int| 0 <= i < lo ==> whitespace_char(#[trigger] chars@[i]),
        decreases n - lo,
    {
        lo = lo + 1;
    }
    let mut hi: usize = n;
    while hi > lo && is_whitespace(chars[hi - 1])
        invariant
            lo <= hi <= n == chars.len(),
            forall|i: int| hi <= i < n ==> whitespace_char(#[trigger] chars@[i]),
        decreases hi,
    {
        hi = hi - 1;
    }
    let mut r = String::new();
    let mut k = lo;
    while k < hi
        invariant
            lo <= k <= hi <= chars.len(),
            r@ == chars@.subrange(lo as int, k as int),
        decreases hi - k,
    {
        push_char(&mut r, chars[k]);
        k = k + 1;
        assert(r@ =~= chars@.subrange(lo as int, k as int));
    }
    proof {
        lemma_trim_ws_range(chars@, lo as int, hi as int);
    }
    r
}

#[verifier::external_body]
/// `str::to_lowercase`: its result, a function of the text alone, is named
/// `lowercase`; nothing more is claimed of it.
fn lowercase_text(s: &str) -> (r: String)
    ensures
        r@ == lowercase(s@),
{
    s.to_lowercase()
}

/// An address that the register check accepts: three to sixteen segments,
/// each of which reads as an `i32`.
pub open spec fn address_valid(t: Seq<char>) -> bool {
    let segs = segments(t);
    &&& 3 <= segs.len() <= 16
    &&& forall|i: int| 0 <= i < segs.len() ==> parse_int(#[trigger] segs[i], i32::MIN as int, i32::MAX as int) is Some
}

pub open spec fn send_word() -> Seq<char> {
    seq!['/', 's', 'e', 'n', 'd']
}

pub open spec fn register_word() -> Seq<char> {
    seq!['/', 'r', 'e', 'g', 'i', 's', 't', 'e', 'r']
}

/// What a text message asks for: a text that starts with `/` names a command
/// up to its first space and carries the rest as argument; `/send` submits
/// the argument, `/register` checks the trimmed, lower-cased address.
pub open spec fn text_outcome(t: Seq<char>) -> TextOutcome {
    let sp = first_space(t, 0);
    let word = t.take(sp);
    let arg = t.skip(sp + 1);
    if t.len() == 0 || t[0] != '/' {
        TextOutcome::Ignore
    } else if word == send_word() {
        if sp < t.len() {
            TextOutcome::Submit(arg)
        } else {
            TextOutcome::MissingArgument
        }
    } else if word == register_word() {
        if sp >= t.len() {
            TextOutcome::MissingArgument
        } else if address_valid(lowercase(trim_ws(arg))) {
            TextOutcome::CoordinatesMissing
        } else {
            TextOutcome::InvalidAddress
        }
    } else {
        TextOutcome::Ignore
    }
}

/// `a` is the action for the outcome `o`.
pub open spec fn action_for_text(a: WsAction, o: TextOutcome) -> bool {
    match o {
        TextOutcome::Submit(arg) => a matches WsAction::Submit(s) && s@ == arg,
        TextOutcome::InvalidAddress => a is InvalidAddress,
        TextOutcome::CoordinatesMissing => a is CoordinatesMissing,
        TextOutcome::MissingArgument => a is MissingArgument,
        TextOutcome::Ignore => a is Ignore,
    }
}

/// The characters `chars[start..end]` are `word`.
fn chars_equal(chars: &Vec<char>, start: usize, end: usize, word: &Vec<char>) -> (r: bool)
    requires
        start <= end <= chars.len(),
    ensures
        r == (chars@.subrange(start as int, end as int) == word@),
{
    if end - start != word.len() {
        return false;
    }
    let mut k: usize = 0;
    while k < word.len()
        invariant
            end - start == word.len(),
            start <= end <= chars.len(),
            0 <= k <= word.len(),
            forall|j: int| 0 <= j < k ==> chars@[start + j] == word@[j],
        decreases word.len() - k,
    {
        if chars[start + k] != word[k] {
            assert(chars@.subrange(start as int, end as int)[k as int] != word@[k as int]);
            return false;
        }
        k = k + 1;
    }
    assert(chars@.subrange(start as int, end as int) =~= word@);
    true
}

/// The text of `chars[start..]`.
fn chars_to_string(chars: &Vec<char>, start: usize) -> (s: String)
    requires
        start <= chars.len(),
    ensures
        s@ == chars@.skip(start as int),
{
    let mut s = String::new();
    let mut k = start;
    while k < chars.len()
        invariant
            start <= k <= chars.len(),
            s@ == chars@.subrange(start as int, k as int),
        decreases chars.len() - k,
    {
        push_char(&mut s, chars[k]);
        k = k + 1;
        assert(s@ =~= chars@.subrange(start as int, k as int));
    }
    assert(s@ =~= chars@.skip(start as int));
    s
}

/// Every segment but the last reads as an `i32`.
pub open spec fn completed_ok(segs: Seq<Seq<char>>) -> bool {
    forall|i: int|
        0 <= i < segs.len() - 1 ==> parse_int(#[trigger] segs[i], i32::MIN as int, i32::MAX as int) is Some
}

/// Whether `t` is an address the register check accepts.
pub fn check_address(t: &str) -> (r: bool)
    ensures
        r == address_valid(t@),
{
    let chars = collect_chars(t);
    let ghost s = chars@;
    let mut current: Vec<char> = Vec::new();
    let mut count: u8 = 1;
    let mut all_ok = true;
    let mut k: usize = 0;
    while k < chars.len()
        invariant
            0 <= k <= chars.len(),
            s == chars@,
            segments(s.take(k as int)).len() >= 1,
            current@ == segments(s.take(k as int)).last(),
            count == (if segments(s.take(k as int)).len() < 17 {
                segments(s.take(k as int)).len() as int
            } else {
                17
            }),
            all_ok == completed_ok(segments(s.take(k as int))),
        decreases chars.len() - k,
    {
        let ghost segs = segments(s.take(k as int));
        proof {
            lemma_segments_step(s, k as int);
        }
        let c = chars[k];
        if c == '/' {
            let ok = parse_decimal(&current, 0, current.len(), -2147483648, 2147483647).is_some();
            proof {
                assert(current@.subrange(0, current@.len() as int) =~= current@);
                let segs2 = segments(s.take(k + 1));
                assert forall|i: int| 0 <= i < segs2.len() - 1 implies #[trigger] segs2[i] == segs[i] by {}
                if all_ok && ok {
                    assert forall|i: int| 0 <= i < segs2.len() - 1 implies parse_int(
                        #[trigger] segs2[i],
                        i32::MIN as int,
                        i32::MAX as int,
                    ) is Some by {
                        assert(segs2[i] == segs[i]);
                        if i < segs.len() - 1 {
                            assert(parse_int(segs[i], i32::MIN as int, i32::MAX as int) is Some);
                        }
                    }
                } else if !ok {
                    assert(segs2[segs.len() - 1] == segs[segs.len() - 1]);
                } else {
                    let j = choose|j: int|
                        0 <= j < segs.len() - 1 && !(parse_int(
                            #[trigger] segs[j],
                            i32::MIN as int,
                            i32::MAX as int,
                        ) is Some);
                    assert(segs2[j] == segs[j]);
                }
            }
            all_ok = all_ok && ok;
            assert(all_ok == completed_ok(segments(s.take(k + 1))));
            current = Vec::new();
            if count < 17 {
                count = count + 1;
            }
            assert(current@ =~= Seq::<char>::empty());
        } else {
            current.push(c);
            proof {
                let segs2 = segments(s.take(k + 1));
                assert forall|i: int| 0 <= i < segs2.len() - 1 implies #[trigger] segs2[i] == segs[i] by {}
                if completed_ok(segs) {
                    assert forall|i: int| 0 <= i < segs2.len() - 1 implies parse_int(
                        #[trigger] segs2[i],
                        i32::MIN as int,
                        i32::MAX as int,
                    ) is Some by {
                        assert(segs2[i] == segs[i]);
                    }
                } else {
                    let j = choose|j: int|
                        0 <= j < segs.len() - 1 && !(parse_int(
                            #[trigger] segs[j],
                            i32::MIN as int,
                            i32::MAX as int,
                        ) is Some);
                    assert(segs2[j] == segs[j]);
                }
                assert(all_ok == completed_ok(segs2));
            }
        }
        k = k + 1;
    }
    assert(s.take(k as int) =~= s);
    let last_ok = parse_decimal(&current, 0, current.len(), -2147483648, 2147483647).is_some();
    assert(current@.subrange(0, current@.len() as int) =~= current@);
    let r = 3 <= count && count <= 16 && all_ok && last_ok;
    proof {
        let segs = segments(s);
        if r {
            assert forall|i: int| 0 <= i < segs.len() implies parse_int(
                #[trigger] segs[i],
                i32::MIN as int,
                i32::MAX as int,
            ) is Some by {}
        }
    }
    r
}

impl WebSocketServer {
    /// A fresh session: number 0, no registered address.
    pub fn new() -> (s: Self)
        ensures
            s.id == 0,
            forall|i: int| 0 <= i < 9 ==> (#[trigger] s.chunks_adress@[i])@ == Seq::<char>::empty(),
    {
        WebSocketServer {
            chunks_adress: [
                String::new(),
                String::new(),
                String::new(),
                String::new(),
                String::new(),
                String::new(),
                String::new(),
                String::new(),
                String::new(),
            ],
            id: 0,
        }
    }

    /// What the session does about a text message, as `text_outcome` says.
    pub fn handle_text(&self, text: &str) -> (a: WsAction)
        ensures
            action_for_text(a, text_outcome(text@)),
    {
        let chars = collect_chars(text);
        let ghost t = chars@;
        if chars.len() == 0 || chars[0] != '/' {
            return WsAction::Ignore;
        }
        let mut sp: usize = 0;
        while sp < chars.len() && chars[sp] != ' '
            invariant
                0 <= sp <= chars.len(),
                t == chars@,
                first_space(t, 0) == first_space(t, sp as int),
            decreases chars.len() - sp,
        {
            sp = sp + 1;
        }
        assert(first_space(t, 0) == sp);
        let send = vec!['/', 's', 'e', 'n', 'd'];
        let register = vec!['/', 'r', 'e', 'g', 'i', 's', 't', 'e', 'r'];
        assert(send@ =~= send_word());
        assert(register@ =~= register_word());
        assert(chars@.subrange(0, sp as int) =~= t.take(sp as int));
        if chars_equal(&chars, 0, sp, &send) {
            if sp < chars.len() {
                WsAction::Submit(chars_to_string(&chars, sp + 1))
            } else {
                WsAction::MissingArgument
            }
        } else if chars_equal(&chars, 0, sp, &register) {
            if sp < chars.len() {
                let arg = chars_to_string(&chars, sp + 1);
                let trimmed = trim_text(arg.as_str());
                let load = lowercase_text(trimmed.as_str());
                if check_address(load.as_str()) {
                    WsAction::CoordinatesMissing
                } else {
                    WsAction::InvalidAddress
                }
            } else {
                WsAction::MissingArgument
            }
        } else {
            WsAction::Ignore
        }
    }

    /// What the session does about a message: answer pings, note pongs,
    /// act on texts as `handle_text` says, echo binaries, close on a close
    /// frame and stop on anything else. No message changes the session.
    pub fn handle(&self, event: &WsEvent) -> (a: WsAction)
        ensures
            event is Ping ==> a is Pong,
            event is Pong ==> a is Heartbeat,
            event matches WsEvent::Text(t) ==> action_for_text(a, text_outcome(t@)),
            event is Binary ==> a is Echo,
            event is Close ==> a is Close,
            event is Other ==> a is Stop,
    {
        match event {
            WsEvent::Ping => WsAction::Pong,
            WsEvent::Pong => WsAction::Heartbeat,
            WsEvent::Text(t) => self.handle_text(t.as_str()),
            WsEvent::Binary => WsAction::Echo,
            WsEvent::Close => WsAction::Close,
            WsEvent::Other => WsAction::Stop,
        }
    }
}

// ---------------------------------------------------------------------------
// A submitted batch of pixels
// ---------------------------------------------------------------------------

#[derive(Debug, Clone, Copy, PartialEq, Eq, Structural)]
pub enum HandleRequestError {
    ImpossibleToHandle,
}

/// What a submitted batch did: painting the map, then the files that save it.
pub struct RequestEffect {
    pub added: Result<Vec<Session>, AddError>,
    pub saved: Result<Vec<SaveFile>, SaveError>,
}

/// `eff` and `after` are what painting `ps` on `before` and saving gives;
/// saving always succeeds.
pub open spec fn request_applied(before: ChunkView, ps: Seq<Pixel>, after: ChunkView, eff: RequestEffect) -> bool {
    &&& match add_pixel_view(before, ps) {
        Some((m, ss)) => after == m && (eff.added matches Ok(got) && got@ == ss),
        None => after == before && eff.added == Err::<Vec<Session>, AddError>(AddError::NotLeaf),
    }
    &&& eff.saved is Ok
    &&& (eff.saved matches Ok(fs) ==> files_view(fs@) == leaves(after).map_values(
        |l: ChunkView| leaf_file(l),
    ))
}

impl WebSocketServer {
    /// Applies a submitted batch: `None` (the message did not read as a list
    /// of pixels) is `ImpossibleToHandle` and leaves the map; otherwise the
    /// pixels are painted on the map (`Chunk::add_pixel`) and the files that
    /// save the painted map are computed (`Chunk::save_files`).
    pub fn handle_request(&self, map: &mut Chunk, pixels: Option<&[Pixel]>) -> (r: Result<RequestEffect, HandleRequestError>)
        requires
            pixels matches Some(ps) ==> add_pixel_fits(old(map)@, ps@),
        ensures
            pixels is None ==> r == Err::<RequestEffect, HandleRequestError>(
                HandleRequestError::ImpossibleToHandle,
            ) && final(map)@ == old(map)@,
            pixels matches Some(ps) ==> r is Ok,
            r matches Ok(eff) ==> (pixels matches Some(ps) && request_applied(
                old(map)@,
                ps@,
                final(map)@,
                eff,
            )),
    {
        match pixels {
            None => Err(HandleRequestError::ImpossibleToHandle),
            Some(ps) => {
                let added = map.add_pixel(ps, "");
                let saved = map.save_files();
                Ok(RequestEffect { added, saved })
            },
        }
    }
}

/// What the heartbeat check does.
#[derive(Debug, Clone, Copy, PartialEq, Eq, Structural)]
pub enum HeartbeatAction {
    /// The client has been silent too long: stop the session.
    Stop,
    /// Ping the client.
    Ping,
}

/// The heartbeat check, `elapsed` being the time since the client was last
/// heard (seconds and nanoseconds): stop when it exceeds `CLIENT_TIMEOUT_SECS`.
pub fn heartbeat(elapsed_secs: u64, elapsed_nanos: u32) -> (a: HeartbeatAction)
    ensures
        a == (if elapsed_secs > CLIENT_TIMEOUT_SECS || (elapsed_secs == CLIENT_TIMEOUT_SECS
            && elapsed_nanos > 0) {
            HeartbeatAction::Stop
        } else {
            HeartbeatAction::Ping
        }),
{
    if elapsed_secs > CLIENT_TIMEOUT_SECS || (elapsed_secs == CLIENT_TIMEOUT_SECS && elapsed_nanos > 0) {
        HeartbeatAction::Stop
    } else {
        HeartbeatAction::Ping
    }
}

} // verus!
