use vstd::prelude::*;
use vstd::string::*;
use vstd::utf8::*;
use crate::error::CatalogError;
use crate::game::{Game, GameRecord, records};

verus! {

/// The four bytes that open every catalog file.
pub open spec fn magic() -> Seq<u8> {
    seq![0x47u8, 0x43u8, 0x41u8, 0x54u8]
}

/// `v` as eight little-endian bytes.
pub open spec fn u64_le(v: u64) -> Seq<u8> {
    seq![
        (v & 0xff) as u8,
        ((v >> 8u64) & 0xff) as u8,
        ((v >> 16u64) & 0xff) as u8,
        ((v >> 24u64) & 0xff) as u8,
        ((v >> 32u64) & 0xff) as u8,
        ((v >> 40u64) & 0xff) as u8,
        ((v >> 48u64) & 0xff) as u8,
        ((v >> 56u64) & 0xff) as u8,
    ]
}

/// The number that eight little-endian bytes hold.
pub open spec fn le_u64(b: Seq<u8>) -> u64 {
    (b[0] as u64) | ((b[1] as u64) << 8u64) | ((b[2] as u64) << 16u64) | ((b[3] as u64) << 24u64)
        | ((b[4] as u64) << 32u64) | ((b[5] as u64) << 40u64) | ((b[6] as u64) << 48u64) | ((
    b[7] as u64) << 56u64)
}

/// A text field: its UTF-8 length, then its UTF-8 bytes.
#[verifier::opaque]
pub open spec fn enc_text(s: Seq<char>) -> Seq<u8> {
    u64_le(encode_utf8(s).len() as u64) + encode_utf8(s)
}

#[verifier::opaque]
pub open spec fn enc_game(g: GameRecord) -> Seq<u8> {
    u64_le(g.id) + enc_text(g.name) + enc_text(g.launch_target) + enc_text(g.icon_path) + enc_text(
        g.background_path,
    )
}

pub open spec fn enc_games(gs: Seq<GameRecord>) -> Seq<u8>
    decreases gs.len(),
{
    if gs.len() == 0 {
        seq![]
    } else {
        enc_games(gs.drop_last()) + enc_game(gs.last())
    }
}

/// The bytes of a catalog file holding `gs`, in order.
pub open spec fn encode_catalog(gs: Seq<GameRecord>) -> Seq<u8> {
    magic() + u64_le(gs.len() as u64) + enc_games(gs)
}

pub open spec fn text_fits(s: Seq<char>) -> bool {
    encode_utf8(s).len() <= u64::MAX
}

pub open spec fn record_fits(g: GameRecord) -> bool {
    text_fits(g.name) && text_fits(g.launch_target) && text_fits(g.icon_path) && text_fits(
        g.background_path,
    )
}

/// A catalog that the file format can hold: every length fits its field.
pub open spec fn catalog_fits(gs: Seq<GameRecord>) -> bool {
    gs.len() <= u64::MAX && forall|i: int| 0 <= i < gs.len() ==> record_fits(#[trigger] gs[i])
}

pub open spec fn take_u64(b: Seq<u8>) -> Option<(u64, Seq<u8>)> {
    if b.len() >= 8 {
        Some((le_u64(b.take(8)), b.skip(8)))
    } else {
        None
    }
}

#[verifier::opaque]
pub open spec fn take_text(b: Seq<u8>) -> Option<(Seq<char>, Seq<u8>)> {
    match take_u64(b) {
        Some((n, r)) => if n <= r.len() && valid_utf8(r.take(n as int)) {
            Some((decode_utf8(r.take(n as int)), r.skip(n as int)))
        } else {
            None
        },
        None => None,
    }
}

#[verifier::opaque]
pub open spec fn take_game(b: Seq<u8>) -> Option<(GameRecord, Seq<u8>)> {
    match take_u64(b) {
        Some((id, r0)) => match take_text(r0) {
            Some((name, r1)) => match take_text(r1) {
                Some((launch_target, r2)) => match take_text(r2) {
                    Some((icon_path, r3)) => match take_text(r3) {
                        Some((background_path, r4)) => Some(
                            (GameRecord { id, name, launch_target, icon_path, background_path }, r4),
                        ),
                        None => None,
                    },
                    None => None,
                },
                None => None,
            },
            None => None,
        },
        None => None,
    }
}

pub open spec fn take_games(b: Seq<u8>, n: nat) -> Option<(Seq<GameRecord>, Seq<u8>)>
    decreases n,
{
    if n == 0 {
        Some((seq![], b))
    } else {
        match take_games(b, (n - 1) as nat) {
            Some((gs, r)) => match take_game(r) {
                Some((g, r2)) => Some((gs.push(g), r2)),
                None => None,
            },
            None => None,
        }
    }
}

/// The catalog that `b` holds, if `b` is a well-formed catalog file.
pub open spec fn parse_catalog(b: Seq<u8>) -> Option<Seq<GameRecord>> {
    if b.len() >= 4 && b.take(4) == magic() {
        match take_u64(b.skip(4)) {
            Some((n, r)) => match take_games(r, n as nat) {
                Some((gs, rest)) => if rest.len() == 0 {
                    Some(gs)
                } else {
                    None
                },
                None => None,
            },
            None => None,
        }
    } else {
        None
    }
}

proof fn lemma_u64_round_trip(v: u64, rest: Seq<u8>)
    ensures
        take_u64(u64_le(v) + rest) == Some((v, rest)),
{
    let b = u64_le(v) + rest;
    assert(b.take(8) =~= u64_le(v));
    assert(b.skip(8) =~= rest);
    assert(((v & 0xff) as u8 as u64) | (((v >> 8u64) & 0xff) as u8 as u64) << 8u64 | (((v
        >> 16u64) & 0xff) as u8 as u64) << 16u64 | (((v >> 24u64) & 0xff) as u8 as u64) << 24u64
        | (((v >> 32u64) & 0xff) as u8 as u64) << 32u64 | (((v >> 40u64) & 0xff) as u8 as u64)
        << 40u64 | (((v >> 48u64) & 0xff) as u8 as u64) << 48u64 | (((v >> 56u64) & 0xff) as u8
        as u64) << 56u64 == v) by (bit_vector);
}

proof fn lemma_u64_canonical(b: Seq<u8>)
    requires
        b.len() == 8,
    ensures
        u64_le(le_u64(b)) == b,
{
    let (b0, b1, b2, b3, b4, b5, b6, b7) = (b[0], b[1], b[2], b[3], b[4], b[5], b[6], b[7]);
    let v = le_u64(b);
    assert(v == (b0 as u64) | ((b1 as u64) << 8u64) | ((b2 as u64) << 16u64) | ((b3 as u64)
        << 24u64) | ((b4 as u64) << 32u64) | ((b5 as u64) << 40u64) | ((b6 as u64) << 48u64) | ((
    b7 as u64) << 56u64));
    assert(v == (b0 as u64) | ((b1 as u64) << 8u64) | ((b2 as u64) << 16u64) | ((b3 as u64)
        << 24u64) | ((b4 as u64) << 32u64) | ((b5 as u64) << 40u64) | ((b6 as u64) << 48u64) | ((
    b7 as u64) << 56u64) ==> (v & 0xff) as u8 == b0 && ((v >> 8u64) & 0xff) as u8 == b1 && ((v
        >> 16u64) & 0xff) as u8 == b2 && ((v >> 24u64) & 0xff) as u8 == b3 && ((v >> 32u64)
        & 0xff) as u8 == b4 && ((v >> 40u64) & 0xff) as u8 == b5 && ((v >> 48u64) & 0xff) as u8
        == b6 && ((v >> 56u64) & 0xff) as u8 == b7) by (bit_vector);
    assert(u64_le(v) =~= b);
}

proof fn lemma_u64_sound(b: Seq<u8>)
    ensures
        take_u64(b) matches Some((v, r)) ==> b == u64_le(v) + r,
{
    if b.len() >= 8 {
        lemma_u64_canonical(b.take(8));
        assert(b =~= b.take(8) + b.skip(8));
    }
}

proof fn lemma_text_round_trip(s: Seq<char>, rest: Seq<u8>)
    requires
        text_fits(s),
    ensures
        take_text(enc_text(s) + rest) == Some((s, rest)),
{
    reveal(enc_text);
    reveal(take_text);
    let e = encode_utf8(s);
    encode_utf8_valid_utf8(s);
    encode_utf8_decode_utf8(s);
    lemma_u64_round_trip(e.len() as u64, e + rest);
    assert(enc_text(s) + rest =~= u64_le(e.len() as u64) + (e + rest));
    assert((e + rest).take(e.len() as int) =~= e);
    assert((e + rest).skip(e.len() as int) =~= rest);
}

proof fn lemma_text_sound(b: Seq<u8>)
    ensures
        take_text(b) matches Some((s, r)) ==> b == enc_text(s) + r && text_fits(s),
{
    reveal(enc_text);
    reveal(take_text);
    lemma_u64_sound(b);
    if let Some((s, r)) = take_text(b) {
        let (n, r0) = take_u64(b)->Some_0;
        let t = r0.take(n as int);
        decode_utf8_encode_utf8(t);
        assert(encode_utf8(decode_utf8(t)) == t);
        assert(r0 =~= t + r);
        assert(b =~= enc_text(s) + r);
    }
}

proof fn lemma_game_round_trip(g: GameRecord, rest: Seq<u8>)
    requires
        record_fits(g),
    ensures
        take_game(enc_game(g) + rest) == Some((g, rest)),
{
    reveal(enc_game);
    reveal(take_game);
    let r3 = enc_text(g.background_path) + rest;
    let r2 = enc_text(g.icon_path) + r3;
    let r1 = enc_text(g.launch_target) + r2;
    let r0 = enc_text(g.name) + r1;
    assert(enc_game(g) + rest =~= u64_le(g.id) + r0);
    lemma_u64_round_trip(g.id, r0);
    lemma_text_round_trip(g.name, r1);
    lemma_text_round_trip(g.launch_target, r2);
    lemma_text_round_trip(g.icon_path, r3);
    lemma_text_round_trip(g.background_path, rest);
}

proof fn lemma_game_sound(b: Seq<u8>)
    ensures
        take_game(b) matches Some((g, r)) ==> b == enc_game(g) + r && record_fits(g),
{
    reveal(enc_game);
    reveal(take_game);
    if let Some((g, r4)) = take_game(b) {
        let (id, r0) = take_u64(b)->Some_0;
        let (name, r1) = take_text(r0)->Some_0;
        let (launch_target, r2) = take_text(r1)->Some_0;
        let (icon_path, r3) = take_text(r2)->Some_0;
        let (background_path, r) = take_text(r3)->Some_0;
        assert(r == r4);
        lemma_u64_sound(b);
        lemma_text_sound(r0);
        lemma_text_sound(r1);
        lemma_text_sound(r2);
        lemma_text_sound(r3);
        assert(b == u64_le(id) + (enc_text(name) + (enc_text(launch_target) + (enc_text(icon_path)
            + (enc_text(background_path) + r4)))));
        assert(b =~= enc_game(g) + r4);
    }
}

proof fn lemma_games_round_trip(gs: Seq<GameRecord>, rest: Seq<u8>)
    requires
        forall|i: int| 0 <= i < gs.len() ==> record_fits(#[trigger] gs[i]),
    ensures
        take_games(enc_games(gs) + rest, gs.len()) == Some((gs, rest)),
    decreases gs.len(),
{
    if gs.len() > 0 {
        let init = gs.drop_last();
        let tail = enc_game(gs.last()) + rest;
        assert forall|i: int| 0 <= i < init.len() implies record_fits(#[trigger] init[i]) by {
            assert(init[i] == gs[i]);
        }
        lemma_games_round_trip(init, tail);
        assert(enc_games(gs) + rest =~= enc_games(init) + tail);
        lemma_game_round_trip(gs.last(), rest);
        assert(init.push(gs.last()) =~= gs);
    }
}

proof fn lemma_games_sound(b: Seq<u8>, n: nat)
    ensures
        take_games(b, n) matches Some((gs, r)) ==> b == enc_games(gs) + r && gs.len() == n
            && forall|i: int| 0 <= i < gs.len() ==> record_fits(#[trigger] gs[i]),
    decreases n,
{
    if n > 0 {
        lemma_games_sound(b, (n - 1) as nat);
        if let Some((gs0, r0)) = take_games(b, (n - 1) as nat) {
            lemma_game_sound(r0);
            if let Some((g, r)) = take_game(r0) {
                let gs = gs0.push(g);
                assert(gs.drop_last() =~= gs0);
                assert(b =~= enc_games(gs) + r);
                assert forall|i: int| 0 <= i < gs.len() implies record_fits(#[trigger] gs[i]) by {
                    if i < gs0.len() {
                        assert(gs[i] == gs0[i]);
                    }
                }
            }
        }
    }
}

/// Reading back what was written: the catalog file for `gs` holds exactly
/// `gs`, in content and order.
pub proof fn lemma_round_trip(gs: Seq<GameRecord>)
    requires
        catalog_fits(gs),
    ensures
        parse_catalog(encode_catalog(gs)) == Some(gs),
{
    let b = encode_catalog(gs);
    let body = u64_le(gs.len() as u64) + enc_games(gs);
    assert(b.take(4) =~= magic());
    assert(b.skip(4) =~= body);
    lemma_u64_round_trip(gs.len() as u64, enc_games(gs));
    lemma_games_round_trip(gs, seq![]);
    assert(enc_games(gs) + seq![] =~= enc_games(gs));
}

proof fn lemma_catalog_sound(b: Seq<u8>)
    ensures
        parse_catalog(b) matches Some(gs) ==> catalog_fits(gs) && encode_catalog(gs) == b,
{
    if let Some(gs) = parse_catalog(b) {
        let (n, r) = take_u64(b.skip(4))->Some_0;
        let rest = take_games(r, n as nat)->Some_0.1;
        lemma_u64_sound(b.skip(4));
        lemma_games_sound(r, n as nat);
        assert(rest =~= seq![]);
        assert(b =~= b.take(4) + b.skip(4));
        assert(r =~= enc_games(gs));
        assert(b =~= encode_catalog(gs));
    }
}

/// A file is read as a catalog only if it is, byte for byte, the file of
/// that catalog; so any other content is reported as corrupt.
pub proof fn lemma_corrupt_detected(b: Seq<u8>)
    ensures
        parse_catalog(b) is None <==> !exists|gs: Seq<GameRecord>|
            catalog_fits(gs) && #[trigger] encode_catalog(gs) == b,
        parse_catalog(b) matches Some(gs) ==> catalog_fits(gs) && encode_catalog(gs) == b,
{
    lemma_catalog_sound(b);
    if exists|gs: Seq<GameRecord>| catalog_fits(gs) && #[trigger] encode_catalog(gs) == b {
        let gs = choose|gs: Seq<GameRecord>| catalog_fits(gs) && #[trigger] encode_catalog(gs) == b;
        lemma_round_trip(gs);
    }
}

proof fn lemma_take_games_none(b: Seq<u8>, m: nat, n: nat)
    requires
        m <= n,
        take_games(b, m) is None,
    ensures
        take_games(b, n) is None,
    decreases n - m,
{
    if m < n {
        lemma_take_games_none(b, m, (n - 1) as nat);
    }
}

fn write_u64(out: &mut Vec<u8>, v: u64)
    ensures
        final(out)@ == old(out)@ + u64_le(v),
{
    let ghost o = out@;
    out.push((v & 0xff) as u8);
    out.push(((v >> 8u64) & 0xff) as u8);
    out.push(((v >> 16u64) & 0xff) as u8);
    out.push(((v >> 24u64) & 0xff) as u8);
    out.push(((v >> 32u64) & 0xff) as u8);
    out.push(((v >> 40u64) & 0xff) as u8);
    out.push(((v >> 48u64) & 0xff) as u8);
    out.push(((v >> 56u64) & 0xff) as u8);
    assert(out@ =~= o + u64_le(v));
}

fn write_bytes(out: &mut Vec<u8>, b: &[u8])
    ensures
        final(out)@ == old(out)@ + b@,
{
    let ghost o = out@;
    let mut i: usize = 0;
    while i < b.len()
        invariant
            i <= b@.len(),
            out@ == o + b@.take(i as int),
        decreases b@.len() - i,
    {
        out.push(b[i]);
        i = i + 1;
        assert(out@ =~= o + b@.take(i as int));
    }
    assert(b@.take(i as int) =~= b@);
}

fn write_text(out: &mut Vec<u8>, s: &str)
    ensures
        final(out)@ == old(out)@ + enc_text(s@),
        text_fits(s@),
{
    reveal(enc_text);
    let ghost o = out@;
    let b = s.as_bytes();
    write_u64(out, b.len() as u64);
    write_bytes(out, b);
    assert(out@ =~= o + enc_text(s@));
}

fn write_game(out: &mut Vec<u8>, g: &Game)
    ensures
        final(out)@ == old(out)@ + enc_game(g@),
        record_fits(g@),
{
    reveal(enc_game);
    let ghost o = out@;
    write_u64(out, g.id);
    write_text(out, g.name.as_str());
    write_text(out, g.launch_target.as_str());
    write_text(out, g.icon_path.as_str());
    write_text(out, g.background_path.as_str());
    assert(out@ =~= o + enc_game(g@));
}

/// The bytes of the catalog file that holds `games`, in order. Every
/// in-memory catalog fits the format, so reading these bytes back yields
/// exactly `games`.
pub fn encode_games(games: &Vec<Game>) -> (r: Vec<u8>)
    ensures
        r@ == encode_catalog(records(games@)),
        catalog_fits(records(games@)),
        parse_catalog(r@) == Some(records(games@)),
{
    let mut out: Vec<u8> = Vec::new();
    out.push(0x47u8);
    out.push(0x43u8);
    out.push(0x41u8);
    out.push(0x54u8);
    write_u64(&mut out, games.len() as u64);
    let ghost head = out@;
    assert(head =~= magic() + u64_le(games@.len() as u64));
    let mut i: usize = 0;
    while i < games.len()
        invariant
            i <= games@.len(),
            out@ == head + enc_games(records(games@.take(i as int))),
            forall|j: int| 0 <= j < i ==> record_fits(#[trigger] games@[j]@),
        decreases games@.len() - i,
    {
        let ghost prev = records(games@.take(i as int));
        write_game(&mut out, &games[i]);
        i = i + 1;
        proof {
            let cur = records(games@.take(i as int));
            assert(cur.drop_last() =~= prev);
            assert(cur.last() == games@[i - 1]@);
            assert(out@ =~= head + enc_games(cur));
        }
    }
    assert(games@.take(i as int) =~= games@);
    proof {
        let gs = records(games@);
        assert forall|j: int| 0 <= j < gs.len() implies record_fits(#[trigger] gs[j]) by {
            assert(gs[j] == games@[j]@);
        }
        lemma_round_trip(gs);
    }
    out
}

/// Relies on std's `str::from_utf8`: it accepts exactly the valid UTF-8
/// byte strings, and then yields the characters they encode.
#[verifier::external_body]
fn utf8_text(b: &[u8]) -> (r: Option<String>)
    ensures
        r is Some <==> valid_utf8(b@),
        r matches Some(s) ==> s@ == decode_utf8(b@),
{
    match std::str::from_utf8(b) {
        Ok(s) => Some(s.to_string()),
        Err(_) => None,
    }
}

fn read_u64(b: &[u8], pos: usize) -> (r: Option<(u64, usize)>)
    requires
        pos <= b@.len(),
    ensures
        match take_u64(b@.skip(pos as int)) {
            Some((v, rest)) => r matches Some((w, p)) && w == v && pos <= p <= b@.len() && rest
                == b@.skip(p as int),
            None => r is None,
        },
{
    if b.len() - pos < 8 {
        return None;
    }
    let v = (b[pos] as u64) | ((b[pos + 1] as u64) << 8u64) | ((b[pos + 2] as u64) << 16u64) | ((
    b[pos + 3] as u64) << 24u64) | ((b[pos + 4] as u64) << 32u64) | ((b[pos + 5] as u64)
        << 40u64) | ((b[pos + 6] as u64) << 48u64) | ((b[pos + 7] as u64) << 56u64);
    proof {
        let t = b@.skip(pos as int).take(8);
        assert(t =~= b@.subrange(pos as int, pos + 8));
        assert(b@.skip(pos as int).skip(8) =~= b@.skip(pos + 8));
    }
    Some((v, pos + 8))
}

fn read_text(b: &[u8], pos: usize) -> (r: Option<(String, usize)>)
    requires
        pos <= b@.len(),
    ensures
        match take_text(b@.skip(pos as int)) {
            Some((s, rest)) => r matches Some((t, p)) && t@ == s && pos <= p <= b@.len() && rest
                == b@.skip(p as int),
            None => r is None,
        },
{
    reveal(take_text);
    let (n, p) = match read_u64(b, pos) {
        Some(x) => x,
        None => return None,
    };
    if n > (b.len() - p) as u64 {
        return None;
    }
    let end = p + n as usize;
    let mut v: Vec<u8> = Vec::new();
    let mut i: usize = p;
    while i < end
        invariant
            p <= i <= end <= b@.len(),
            v@ == b@.subrange(p as int, i as int),
        decreases end - i,
    {
        v.push(b[i]);
        i = i + 1;
        assert(v@ =~= b@.subrange(p as int, i as int));
    }
    proof {
        assert(b@.skip(p as int).take(n as int) =~= v@);
        assert(b@.skip(p as int).skip(n as int) =~= b@.skip(end as int));
    }
    match utf8_text(v.as_slice()) {
        Some(s) => Some((s, end)),
        None => None,
    }
}

fn read_game(b: &[u8], pos: usize) -> (r: Option<(Game, usize)>)
    requires
        pos <= b@.len(),
    ensures
        match take_game(b@.skip(pos as int)) {
            Some((g, rest)) => r matches Some((h, p)) && h@ == g && pos <= p <= b@.len() && rest
                == b@.skip(p as int),
            None => r is None,
        },
{
    reveal(take_game);
    let (id, p0) = match read_u64(b, pos) {
        Some(x) => x,
        None => return None,
    };
    let (name, p1) = match read_text(b, p0) {
        Some(x) => x,
        None => return None,
    };
    let (launch_target, p2) = match read_text(b, p1) {
        Some(x) => x,
        None => return None,
    };
    let (icon_path, p3) = match read_text(b, p2) {
        Some(x) => x,
        None => return None,
    };
    let (background_path, p4) = match read_text(b, p3) {
        Some(x) => x,
        None => return None,
    };
    Some((Game { id, name, launch_target, icon_path, background_path }, p4))
}

/// Reads a catalog file: the games it holds, in order, or `CorruptCatalog`
/// when the bytes are not a well-formed catalog.
pub fn decode_games(bytes: &[u8]) -> (r: Result<Vec<Game>, CatalogError>)
    ensures
        match parse_catalog(bytes@) {
            Some(gs) => r matches Ok(v) && records(v@) == gs,
            None => r == Err::<Vec<Game>, CatalogError>(CatalogError::CorruptCatalog),
        },
{
    if bytes.len() < 4 || bytes[0] != 0x47u8 || bytes[1] != 0x43u8 || bytes[2] != 0x41u8
        || bytes[3] != 0x54u8 {
        proof {
            if bytes@.len() >= 4 {
                assert(bytes@.take(4)[0] == bytes@[0]);
                assert(bytes@.take(4)[1] == bytes@[1]);
                assert(bytes@.take(4)[2] == bytes@[2]);
                assert(bytes@.take(4)[3] == bytes@[3]);
            }
        }
        return Err(CatalogError::CorruptCatalog);
    }
    assert(bytes@.take(4) =~= magic());
    let (n, start) = match read_u64(bytes, 4) {
        Some(x) => x,
        None => return Err(CatalogError::CorruptCatalog),
    };
    let ghost r0 = bytes@.skip(start as int);
    assert(take_u64(bytes@.skip(4)) == Some((n, r0)));
    let mut games: Vec<Game> = Vec::new();
    let mut pos: usize = start;
    let mut k: u64 = 0;
    assert(records(games@) =~= seq![]);
    while k < n
        invariant
            start <= pos <= bytes@.len(),
            k <= n,
            r0 == bytes@.skip(start as int),
            bytes@.len() >= 4,
            bytes@.take(4) == magic(),
            take_u64(bytes@.skip(4)) == Some((n, r0)),
            take_games(r0, k as nat) == Some((records(games@), bytes@.skip(pos as int))),
        decreases n - k,
    {
        match read_game(bytes, pos) {
            Some((g, p)) => {
                let ghost before = games@;
                games.push(g);
                pos = p;
                k = k + 1;
                assert(records(games@) =~= records(before).push(g@));
            },
            None => {
                proof {
                    assert(take_game(bytes@.skip(pos as int)) is None);
                    assert(take_games(r0, (k + 1) as nat) is None);
                    lemma_take_games_none(r0, (k + 1) as nat, n as nat);
                    assert(take_u64(bytes@.skip(4)) == Some((n, r0)));
                }
                return Err(CatalogError::CorruptCatalog);
            },
        }
    }
    if pos != bytes.len() {
        assert(bytes@.skip(pos as int).len() > 0);
        return Err(CatalogError::CorruptCatalog);
    }
    Ok(games)
}

} // verus!
