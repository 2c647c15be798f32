//! A friend's owned games, asked of Steam as `Player.GetOwnedGames#1`: the
//! protobuf request and the reading of the app ids out of the answer.

use crate::sam_error::SamError;
use crate::text::{decimal, push_decimal};
use crate::unified_messages::CallFailure;
use std::collections::HashSet;
use vstd::std_specs::iter::IteratorSpec;
use vstd::prelude::*;

verus! {

broadcast use vstd::std_specs::hash::group_hash_axioms;

/// The SteamID64 of an individual account in the public universe, without its
/// account number.
pub const STEAM_ID64_BASE: u64 = 0x0110_0001_0000_0000;

/// Widens a 32-bit account id to the SteamID64 of the individual public account.
pub fn steam_id64(account_id: u32) -> (id: u64)
    ensures
        id == STEAM_ID64_BASE + account_id,
{
    let wide = account_id as u64;
    assert(STEAM_ID64_BASE | wide == STEAM_ID64_BASE + wide) by (bit_vector)
        requires
            wide < 0x1_0000_0000,
            STEAM_ID64_BASE == 0x0110_0001_0000_0000u64;
    STEAM_ID64_BASE | wide
}

/// The base-128 little-endian encoding of `v` (protobuf's varint).
pub open spec fn varint_bytes(v: nat) -> Seq<u8>
    decreases v,
{
    if v < 128 {
        seq![v as u8]
    } else {
        seq![(v % 128 + 128) as u8] + varint_bytes(v / 128)
    }
}

/// Reading a varint whose `k`-th byte stands at `pos + k`: the value of the
/// bytes from the `k`-th on, and where the varint ends. A tenth byte may only
/// carry the top bit of a 64-bit value.
pub open spec fn varint_from(bytes: Seq<u8>, pos: int, k: nat) -> Option<(nat, int)>
    decreases 10 - k,
{
    if k >= 10 || pos + k < 0 || pos + k >= bytes.len() {
        None
    } else {
        let b = bytes[pos + k];
        if k == 9 && b % 128 >= 2 {
            None
        } else if b < 128 {
            Some(((b % 128) as nat, pos + k + 1))
        } else {
            match varint_from(bytes, pos, k + 1) {
                Some((rest, end)) => Some(((b % 128) as nat + 128 * rest, end)),
                None => None,
            }
        }
    }
}

/// The varint at `pos`: its value and the position just past it.
pub open spec fn varint_at(bytes: Seq<u8>, pos: int) -> Option<(u64, int)> {
    match varint_from(bytes, pos, 0) {
        Some((v, end)) => Some((v as u64, end)),
        None => None,
    }
}

/// How many values the bytes from the `k`-th on can still take.
pub open spec fn varint_room(k: nat) -> nat
    decreases 9 - k,
{
    if k >= 9 { 2 } else { 128 * varint_room(k + 1) }
}

proof fn lemma_varint_room_positive(k: nat)
    ensures
        varint_room(k) >= 2,
        k < 9 ==> varint_room(k) >= 256,
    decreases 9 - k,
{
    if k < 9 {
        lemma_varint_room_positive(k + 1);
    }
}

proof fn lemma_varint_room_total()
    ensures
        varint_room(0) == 0x1_0000_0000_0000_0000,
{
    reveal_with_fuel(varint_room, 10);
}

proof fn lemma_varint_from_facts(bytes: Seq<u8>, pos: int, k: nat)
    ensures
        varint_from(bytes, pos, k) matches Some((v, end)) ==> {
            &&& pos + k < end <= bytes.len()
            &&& end <= pos + 10
            &&& v < varint_room(k)
        },
    decreases 10 - k,
{
    if !(k >= 10 || pos + k < 0 || pos + k >= bytes.len()) {
        lemma_varint_from_facts(bytes, pos, k + 1);
        lemma_varint_room_positive(k);
        if k < 9 {
            assert(varint_room(k) == 128 * varint_room(k + 1));
            lemma_varint_room_positive(k + 1);
        }
    }
}

/// A varint read at `pos` ends past `pos` and fits 64 bits.
pub proof fn lemma_varint_at_facts(bytes: Seq<u8>, pos: int)
    ensures
        varint_from(bytes, pos, 0) matches Some((v, end)) ==> {
            &&& pos < end <= bytes.len()
            &&& end <= pos + 10
            &&& v < 0x1_0000_0000_0000_0000
        },
{
    lemma_varint_from_facts(bytes, pos, 0);
    lemma_varint_room_total();
}

/// Appends the varint encoding of `value`.
pub fn put_varint(out: &mut Vec<u8>, value: u64)
    ensures
        final(out)@ == old(out)@ + varint_bytes(value as nat),
{
    let mut value = value;
    let ghost start = old(out)@;
    let ghost whole = value as nat;
    while value >= 0x80
        invariant
            start + varint_bytes(whole) == out@ + varint_bytes(value as nat),
        decreases value,
    {
        let byte = (value as u8) | 0x80;
        assert(byte == (value % 128 + 128) as u8) by (bit_vector)
            requires byte == (value as u8) | 0x80u8;
        proof {
            assert(varint_bytes(value as nat) == seq![(value % 128 + 128) as u8] + varint_bytes(
                (value / 128) as nat,
            ));
        }
        let ghost prev_out = out@;
        out.push(byte);
        let ghost before = value;
        value = value >> 7;
        assert(value == before / 128) by (bit_vector)
            requires value == before >> 7u64;
        proof {
            assert(prev_out + varint_bytes(before as nat) =~= out@ + varint_bytes(value as nat));
        }
    }
    assert(value as u8 == value as nat as u8);
    out.push(value as u8);
    assert(final(out)@ =~= old(out)@ + varint_bytes(whole));
}

/// Reads the varint at `*pos` and moves past it; `None` where the bytes end
/// first or the varint would not fit 64 bits.
#[verifier::spinoff_prover]
pub fn take_varint(bytes: &[u8], pos: &mut usize) -> (r: Option<u64>)
    ensures
        match varint_at(bytes@, *old(pos) as int) {
            Some((v, end)) => r == Some(v) && *final(pos) == end,
            None => r is None,
        },
{
    let ghost p0 = *pos as int;
    let mut value = 0u64;
    let mut k: u32 = 0;
    proof {
        lemma_varint_at_facts(bytes@, p0);
    }
    assert(1u64 << 0u64 == 1) by (bit_vector);
    while k < 10
        invariant
            k <= 10,
            p0 == *old(pos),
            *pos == p0 + k,
            k < 10 ==> value < (1u64 << (7 * k) as u64),
            k < 10 ==> varint_from(bytes@, p0, 0) == match varint_from(bytes@, p0, k as nat) {
                Some((r, e)) => Some(((value + (1u64 << (7 * k) as u64) * r) as nat, e)),
                None => None::<(nat, int)>,
            },
            k == 10 ==> varint_from(bytes@, p0, 0) is None,
            varint_from(bytes@, p0, 0) matches Some((v, end)) ==> v < 0x1_0000_0000_0000_0000,
        decreases 10 - k,
    {
        if *pos >= bytes.len() {
            assert(varint_from(bytes@, p0, k as nat) is None);
            return None;
        }
        let byte = bytes[*pos];
        *pos = *pos + 1;
        let shift: u64 = 7 * k as u64;
        if shift == 63 && byte & 0x7e != 0 {
            assert(byte & 0x7e != 0 ==> byte % 128 >= 2) by (bit_vector);
            assert(k == 9);
            assert(varint_from(bytes@, p0, k as nat) is None);
            return None;
        }
        let digit = (byte & 0x7f) as u64;
        let ghost scale = 1u64 << shift;
        assert(digit == byte % 128) by (bit_vector)
            requires digit == (byte & 0x7fu8) as u64;
        assert(shift == 63 ==> digit < 2) by (bit_vector)
            requires shift == 63 ==> byte & 0x7eu8 == 0, digit == (byte & 0x7fu8) as u64;
        let ghost old_value = value;
        assert(shift <= 63);
        assert((old_value | (digit << shift)) as int == old_value + digit * scale) by (bit_vector)
            requires
                shift <= 63,
                shift <= 56 || digit < 2,
                digit < 128,
                old_value < scale,
                scale == 1u64 << shift;
        value = value | (digit << shift);
        if byte & 0x80 == 0 {
            assert(byte & 0x80 == 0 ==> byte < 128) by (bit_vector);
            assert(byte == bytes@[p0 + k]);
            assert(varint_from(bytes@, p0, k as nat) == Some(((byte % 128) as nat, p0 + k + 1)));
            assert(scale == (1u64 << (7 * k) as u64));
            assert(scale * ((byte % 128) as nat) == digit * scale) by (nonlinear_arith)
                requires digit == byte % 128;
            assert(varint_from(bytes@, p0, 0) == Some((value as nat, p0 + k + 1)));
            return Some(value);
        }
        assert(byte & 0x80 != 0 ==> byte >= 128) by (bit_vector);
        if k < 9 {
            let ghost next = 1u64 << (shift + 7);
            assert(next == scale * 128) by (bit_vector)
                requires shift <= 56, scale == 1u64 << shift, next == 1u64 << (shift + 7);
            assert(value < next) by (bit_vector)
                requires
                    shift <= 56,
                    digit < 128,
                    old_value < scale,
                    scale == 1u64 << shift,
                    next == 1u64 << (shift + 7),
                    value == old_value | (digit << shift);
            proof {
                match varint_from(bytes@, p0, (k + 1) as nat) {
                    Some((r, e)) => {
                        assert(old_value + scale * (digit + 128 * r) == value + next * r)
                            by (nonlinear_arith)
                            requires value == old_value + digit * scale, next == scale * 128;
                    },
                    None => {},
                }
            }
        }
        k = k + 1;
        assert(7 * k as u64 == shift + 7);
    }
    None
}

proof fn lemma_varint_round_trip(s: Seq<u8>, p: int, k: nat, v: nat)
    requires
        0 <= p,
        k <= 9,
        v < varint_room(k),
        p + k + varint_bytes(v).len() <= s.len(),
        s.subrange(p + k, p + k + varint_bytes(v).len()) == varint_bytes(v),
    ensures
        varint_from(s, p, k) == Some((v, p + k + varint_bytes(v).len())),
    decreases v,
{
    let enc = varint_bytes(v);
    assert(s[p + k] == s.subrange(p + k, p + k + enc.len())[0]);
    lemma_varint_room_positive(k);
    if v >= 128 {
        assert(k < 9);
        assert(varint_room(k) == 128 * varint_room(k + 1));
        let rest = varint_bytes(v / 128);
        assert(enc == seq![(v % 128 + 128) as u8] + rest);
        assert(s.subrange(p + k + 1, p + k + 1 + rest.len()) =~= rest) by {
            assert forall|i: int| 0 <= i < rest.len() implies s.subrange(
                p + k + 1,
                p + k + 1 + rest.len(),
            )[i] == rest[i] by {
                assert(s.subrange(p + k, p + k + enc.len())[i + 1] == enc[i + 1]);
            }
        }
        lemma_varint_round_trip(s, p, k + 1, v / 128);
    }
}

/// A varint reads back as the value it encodes, whatever follows it.
pub proof fn varint_round_trip(v: u64, rest: Seq<u8>)
    ensures
        varint_at(varint_bytes(v as nat) + rest, 0) == Some((v, varint_bytes(v as nat).len() as int)),
{
    let s = varint_bytes(v as nat) + rest;
    lemma_varint_room_total();
    assert(s.subrange(0, varint_bytes(v as nat).len() as int) =~= varint_bytes(v as nat));
    lemma_varint_round_trip(s, 0, 0, v as nat);
}

/// Where `pos` lands after moving `n` bytes forward, if that stays in `bytes`.
pub open spec fn advanced(bytes: Seq<u8>, pos: int, n: int) -> Option<int> {
    if pos + n <= bytes.len() { Some(pos + n) } else { None }
}

/// Where a field of wire type `wire` whose payload starts at `pos` ends.
pub open spec fn skipped(bytes: Seq<u8>, pos: int, wire: u64) -> Option<int> {
    if wire == 0 {
        match varint_at(bytes, pos) {
            Some((_, end)) => Some(end),
            None => None,
        }
    } else if wire == 1 {
        advanced(bytes, pos, 8)
    } else if wire == 2 {
        match varint_at(bytes, pos) {
            Some((len, end)) => advanced(bytes, end, (len as usize) as int),
            None => None,
        }
    } else if wire == 5 {
        advanced(bytes, pos, 4)
    } else {
        None
    }
}

/// Skipping a field never moves backwards nor past the end.
pub proof fn lemma_skipped_advances(bytes: Seq<u8>, pos: int, wire: u64)
    requires
        0 <= pos,
    ensures
        skipped(bytes, pos, wire) matches Some(end) ==> pos <= end <= bytes.len(),
{
    lemma_varint_at_facts(bytes, pos);
    if let Some((len, end)) = varint_at(bytes, pos) {
        lemma_varint_at_facts(bytes, end);
    }
}

fn advance(bytes: &[u8], pos: &mut usize, n: usize) -> (r: Option<()>)
    ensures
        match advanced(bytes@, *old(pos) as int, n as int) {
            Some(end) => r is Some && *final(pos) == end,
            None => r is None && *final(pos) == *old(pos),
        },
{
    let len = bytes.len();
    let end = match pos.checked_add(n) {
        Some(end) => end,
        None => return None,
    };
    if end <= len {
        *pos = end;
        Some(())
    } else {
        None
    }
}

fn skip(bytes: &[u8], pos: &mut usize, wire: u64) -> (r: Option<()>)
    ensures
        match skipped(bytes@, *old(pos) as int, wire) {
            Some(end) => r is Some && *final(pos) == end,
            None => r is None,
        },
{
    if wire == 0 {
        match take_varint(bytes, pos) {
            Some(_) => Some(()),
            None => None,
        }
    } else if wire == 1 {
        advance(bytes, pos, 8)
    } else if wire == 2 {
        let len = match take_varint(bytes, pos) {
            Some(len) => len as usize,
            None => return None,
        };
        advance(bytes, pos, len)
    } else if wire == 5 {
        advance(bytes, pos, 4)
    } else {
        None
    }
}

/// The body of `Player.GetOwnedGames#1` asking for `account_id`'s games: its
/// SteamID64 (field 1), played free games included (field 3) and unvetted
/// apps not skipped (field 6).
pub open spec fn request_bytes(account_id: u32) -> Seq<u8> {
    seq![0x08u8] + varint_bytes((STEAM_ID64_BASE + account_id) as nat) + seq![0x18u8, 0x01, 0x30, 0x00]
}

/// The request body for `account_id`'s owned games.
pub fn encode_request(account_id: u32) -> (out: Vec<u8>)
    ensures
        out@ == request_bytes(account_id),
{
    let mut out = Vec::with_capacity(16);
    out.push(0x08);
    put_varint(&mut out, steam_id64(account_id));
    out.push(0x18);
    out.push(0x01);
    out.push(0x30);
    out.push(0x00);
    assert(out@ =~= request_bytes(account_id));
    out
}

/// The app ids of the game entries from `pos` on (field 1, a varint, of each
/// entry), added to `acc`; ids past 32 bits are left out.
pub open spec fn game_ids(game: Seq<u8>, pos: int, acc: Set<u32>) -> Option<Set<u32>>
    decreases game.len() - pos,
{
    if pos < 0 || pos >= game.len() {
        Some(acc)
    } else {
        match varint_at(game, pos) {
            None => None,
            Some((tag, p1)) => {
                proof {
                    lemma_varint_at_facts(game, pos);
                    lemma_varint_at_facts(game, p1);
                    lemma_skipped_advances(game, p1, tag % 8);
                }
                if tag / 8 == 1 && tag % 8 == 0 {
                    match varint_at(game, p1) {
                        None => None,
                        Some((v, p2)) => game_ids(
                            game,
                            p2,
                            if v <= u32::MAX { acc.insert(v as u32) } else { acc },
                        ),
                    }
                } else {
                    match skipped(game, p1, tag % 8) {
                        None => None,
                        Some(p2) => game_ids(game, p2, acc),
                    }
                }
            },
        }
    }
}

/// The app ids of every game listed (field 2) in a `GetOwnedGames` response
/// from `pos` on, added to `acc`; `None` where the body is malformed.
pub open spec fn owned_ids(bytes: Seq<u8>, pos: int, acc: Set<u32>) -> Option<Set<u32>>
    decreases bytes.len() - pos,
{
    if pos < 0 || pos >= bytes.len() {
        Some(acc)
    } else {
        match varint_at(bytes, pos) {
            None => None,
            Some((tag, p1)) => {
                proof {
                    lemma_varint_at_facts(bytes, pos);
                    lemma_varint_at_facts(bytes, p1);
                    lemma_skipped_advances(bytes, p1, tag % 8);
                }
                if !(tag / 8 == 2 && tag % 8 == 2) {
                    match skipped(bytes, p1, tag % 8) {
                        None => None,
                        Some(p2) => owned_ids(bytes, p2, acc),
                    }
                } else {
                    match varint_at(bytes, p1) {
                        None => None,
                        Some((len, p2)) => {
                            let end = p2 + (len as usize) as int;
                            if end > bytes.len() {
                                None
                            } else {
                                match game_ids(bytes.subrange(p2, end), 0, acc) {
                                    None => None,
                                    Some(ids) => owned_ids(bytes, end, ids),
                                }
                            }
                        },
                    }
                }
            },
        }
    }
}

/// The app ids a `GetOwnedGames` response lists; `None` where it is malformed.
pub open spec fn decoded_app_ids(bytes: Seq<u8>) -> Option<Set<u32>> {
    owned_ids(bytes, 0, Set::empty())
}

fn tag_parts(tag: u64) -> (r: (u64, u64))
    ensures
        r.0 == tag / 8,
        r.1 == tag % 8,
{
    let field = tag >> 3;
    let wire = tag & 7;
    assert(field == tag / 8) by (bit_vector)
        requires field == tag >> 3u64;
    assert(wire == tag % 8) by (bit_vector)
        requires wire == tag & 7u64;
    (field, wire)
}

fn read_game(game: &[u8], out: &mut HashSet<u32>) -> (r: Option<()>)
    ensures
        match game_ids(game@, 0, old(out)@) {
            Some(ids) => r is Some && final(out)@ == ids,
            None => r is None,
        },
{
    let mut inner = 0usize;
    while inner < game.len()
        invariant
            inner <= game.len(),
            game_ids(game@, 0, old(out)@) == game_ids(game@, inner as int, out@),
        decreases game.len() - inner,
    {
        let ghost at = inner as int;
        let tag = match take_varint(game, &mut inner) {
            Some(tag) => tag,
            None => return None,
        };
        proof {
            lemma_varint_at_facts(game@, at);
        }
        let (field, wire) = tag_parts(tag);
        if field == 1 && wire == 0 {
            let ghost p1 = inner as int;
            let value = match take_varint(game, &mut inner) {
                Some(v) => v,
                None => return None,
            };
            proof {
                lemma_varint_at_facts(game@, p1);
            }
            if value <= u32::MAX as u64 {
                out.insert(value as u32);
            }
        } else {
            let ghost p1 = inner as int;
            if skip(game, &mut inner, wire).is_none() {
                return None;
            }
            proof {
                lemma_skipped_advances(game@, p1, wire);
            }
        }
    }
    Some(())
}

/// The app ids listed in a `GetOwnedGames` response; `None` where the body
/// is malformed.
pub fn decode_app_ids(bytes: &[u8]) -> (r: Option<HashSet<u32>>)
    ensures
        match decoded_app_ids(bytes@) {
            Some(ids) => r is Some && r.unwrap()@ == ids,
            None => r is None,
        },
{
    let mut out: HashSet<u32> = HashSet::new();
    let mut pos = 0usize;
    while pos < bytes.len()
        invariant
            pos <= bytes.len(),
            decoded_app_ids(bytes@) == owned_ids(bytes@, pos as int, out@),
        decreases bytes.len() - pos,
    {
        let ghost at = pos as int;
        let tag = match take_varint(bytes, &mut pos) {
            Some(tag) => tag,
            None => return None,
        };
        proof {
            lemma_varint_at_facts(bytes@, at);
        }
        let (field, wire) = tag_parts(tag);
        if field != 2 || wire != 2 {
            let ghost p1 = pos as int;
            if skip(bytes, &mut pos, wire).is_none() {
                return None;
            }
            proof {
                lemma_skipped_advances(bytes@, p1, wire);
            }
            continue;
        }
        let ghost p1 = pos as int;
        let len = match take_varint(bytes, &mut pos) {
            Some(len) => len as usize,
            None => return None,
        };
        proof {
            lemma_varint_at_facts(bytes@, p1);
        }
        let end = match pos.checked_add(len) {
            Some(end) => end,
            None => return None,
        };
        if end > bytes.len() {
            return None;
        }
        let game = vstd::slice::slice_subrange(bytes, pos, end);
        if read_game(game, &mut out).is_none() {
            return None;
        }
        pos = end;
    }
    Some(out)
}

/// `k_EResultAccessDenied`: the friend's library is private to us.
pub const RESULT_ACCESS_DENIED: i32 = 15;

/// What `owned_games` answers for a reply: a refusal is permanent and means an
/// empty library; any other failure, or a malformed body, is an error.
pub open spec fn owned_games_answer(reply: Result<Seq<u8>, CallFailure>) -> Result<Set<u32>, SamError> {
    match reply {
        Ok(body) => match decoded_app_ids(body) {
            Some(ids) => Ok(ids),
            None => Err(SamError::UnknownError),
        },
        Err(CallFailure::ResultFailed(code)) => if code == RESULT_ACCESS_DENIED {
            Ok(Set::empty())
        } else {
            Err(SamError::UnknownError)
        },
        Err(_) => Err(SamError::UnknownError),
    }
}

/// The decision `owned_games` makes on Steam's reply.
pub fn owned_games_from_reply(reply: Result<Vec<u8>, CallFailure>) -> (r: Result<HashSet<u32>, SamError>)
    ensures
        match owned_games_answer(match reply { Ok(b) => Ok(b@), Err(e) => Err(e) }) {
            Ok(ids) => r is Ok && r.unwrap()@ == ids,
            Err(e) => r == Err::<HashSet<u32>, SamError>(e),
        },
{
    match reply {
        Ok(body) => match decode_app_ids(body.as_slice()) {
            Some(ids) => Ok(ids),
            None => Err(SamError::UnknownError),
        },
        Err(CallFailure::ResultFailed(code)) => {
            if code == RESULT_ACCESS_DENIED {
                Ok(HashSet::new())
            } else {
                Err(SamError::UnknownError)
            }
        },
        Err(_) => Err(SamError::UnknownError),
    }
}

/// How long Steam's own client keeps a friend's library: a day, in seconds.
pub const CACHE_TTL_SECS: u64 = 24 * 60 * 60;

/// A cached library is used while it is no older than a day.
pub fn cache_is_fresh(elapsed_secs: u64, elapsed_nanos: u32) -> (fresh: bool)
    requires
        elapsed_nanos < 1_000_000_000,
    ensures
        fresh == (elapsed_secs * 1_000_000_000 + elapsed_nanos <= CACHE_TTL_SECS * 1_000_000_000),
{
    !(elapsed_secs > CACHE_TTL_SECS || (elapsed_secs == CACHE_TTL_SECS && elapsed_nanos > 0))
}

/// The name of the file a friend's library is cached in.
pub fn cache_file_name(account_id: u32) -> (name: String)
    ensures
        name@ == "friend-games-"@ + decimal(account_id as nat) + ".json"@,
{
    let mut name = String::from_str("friend-games-");
    push_decimal(&mut name, account_id);
    name.append(".json");
    name
}

/// Names what `serde_json::from_slice::<Vec<u32>>` makes of `bytes`: the
/// numbers of a JSON array of 32-bit unsigned integers, or `None`.
pub uninterp spec fn json_u32_array(bytes: Seq<u8>) -> Option<Seq<u32>>;

/// The ASCII bytes of `n` in decimal.
pub open spec fn decimal_bytes(n: nat) -> Seq<u8> {
    decimal(n).map_values(|c: char| c as u8)
}

/// The numbers of `ids` in decimal, a comma between each two.
pub open spec fn json_numbers(ids: Seq<u32>) -> Seq<u8>
    decreases ids.len(),
{
    if ids.len() == 0 {
        seq![]
    } else if ids.len() == 1 {
        decimal_bytes(ids[0] as nat)
    } else {
        json_numbers(ids.drop_last()) + seq![0x2cu8] + decimal_bytes(ids.last() as nat)
    }
}

/// The bytes `serde_json::to_vec` writes for a list of 32-bit unsigned
/// integers: its compact JSON array, `[`, the numbers, `]`.
pub open spec fn json_of_u32_array(ids: Seq<u32>) -> Seq<u8> {
    seq![0x5bu8] + json_numbers(ids) + seq![0x5du8]
}

/// Calls `serde_json::from_slice::<Vec<u32>>`; its result is `json_u32_array`
/// of the bytes, and nothing more is claimed of it.
#[verifier::external_body]
fn parse_json_u32_array(bytes: &[u8]) -> (r: Option<Vec<u32>>)
    ensures
        match r {
            Some(v) => json_u32_array(bytes@) == Some(v@),
            None => json_u32_array(bytes@) is None,
        },
{
    serde_json::from_slice::<Vec<u32>>(bytes).ok()
}

/// Calls `serde_json::to_vec` on a list of 32-bit unsigned integers; what it
/// writes is `json_of_u32_array` of the list (its compact formatter writes `[`,
/// each number in decimal with a `,` before all but the first, then `]`),
/// which `serde_json::from_slice::<Vec<u32>>` reads back as the same list. It does not fail: serde_json fails only where a `Serialize` impl
/// fails or a map has non-string keys, and a list of numbers written into a
/// `Vec<u8>` does neither.
#[verifier::external_body]
fn write_json_u32_array(ids: &Vec<u32>) -> (r: Option<Vec<u8>>)
    ensures
        r is Some,
        r matches Some(bytes) ==> bytes@ == json_of_u32_array(ids@) && json_u32_array(bytes@) == Some(ids@),
{
    serde_json::to_vec(ids).ok()
}

/// The library a cache file holds, if it holds a JSON list of app ids.
pub fn decode_cache(bytes: &[u8]) -> (r: Option<HashSet<u32>>)
    ensures
        match json_u32_array(bytes@) {
            Some(ids) => r is Some && r.unwrap()@ == ids.to_set(),
            None => r is None,
        },
{
    let ids = match parse_json_u32_array(bytes) {
        Some(ids) => ids,
        None => return None,
    };
    let mut out: HashSet<u32> = HashSet::new();
    let mut i = 0usize;
    while i < ids.len()
        invariant
            i <= ids.len(),
            out@ == ids@.take(i as int).to_set(),
        decreases ids.len() - i,
    {
        proof {
            assert(ids@.take(i + 1) == ids@.take(i as int).push(ids@[i as int]));
            ids@.take(i as int).lemma_push_to_set_commute(ids@[i as int]);
        }
        out.insert(ids[i]);
        i = i + 1;
    }
    assert(ids@.take(ids.len() as int) == ids@);
    Some(out)
}

/// The bytes a friend's library is cached as: a JSON list of its app ids,
/// each once, in whatever order the set gives them. What is written reads
/// back as the same library. Encoding always succeeds.
pub fn encode_cache(owned: &HashSet<u32>) -> (r: Option<Vec<u8>>)
    ensures
        r is Some,
        r matches Some(bytes) ==> exists|ids: Seq<u32>|
            #![trigger json_of_u32_array(ids)]
            ids.to_set() == owned@ && ids.no_duplicates() && bytes@ == json_of_u32_array(ids),
        r matches Some(bytes) ==> json_u32_array(bytes@) matches Some(ids) && ids.to_set() == owned@,
{
    let mut apps: Vec<u32> = Vec::new();
    let keys = owned.iter();
    let ghost start = keys;
    for id in it: keys
        invariant
            it.seq() == start.remaining(),
            apps@ == it.seq().take(it.index() as int).map_values(|r: &u32| *r),
    {
        apps.push(*id);
        assert(it.seq().take(it.index() as int + 1).map_values(|r: &u32| *r) =~= apps@);
    }
    let ghost all = start.remaining();
    assert(all.take(all.len() as int) == all);
    assert(apps@ =~= all.unref());
    let bytes = write_json_u32_array(&apps);
    bytes
}

} // verus!
