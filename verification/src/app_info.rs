//! `appinfo.vdf`: a header, a length-prefixed blob per app, then the string table.

use crate::sam_error::SamError;
use crate::text::{has_prefix, parse_u32_from, parsed_u32, str_eq};
use std::collections::{HashMap, HashSet};
use vstd::prelude::*;

verus! {

broadcast use vstd::std_specs::hash::group_hash_axioms;

/// The magic of the version-29 format.
pub const MAGIC_V29: u32 = 0x0756_4429;

/// infoState, lastUpdated, token, text hash, changeNumber, binary hash.
pub const APP_HEADER_LEN: usize = 60;

/// Valve's blobs nest about four deep; deeper nesting than this is refused.
pub const MAX_DEPTH: u8 = 32;

/// What the library reads of one app's `common` section.
pub struct AppInfo {
    pub controller_support: String,
    pub languages: HashSet<u32>,
    pub store_tags: HashSet<u32>,
    pub categories: HashSet<u32>,
    pub deck_compat: i32,
    pub steamos_compat: i32,
    pub steam_machine_compat: i32,
    pub mastersub_appid: u32,
}

/// The contents of an [`AppInfo`].
pub struct AppInfoView {
    pub controller_support: Seq<char>,
    pub languages: Set<u32>,
    pub store_tags: Set<u32>,
    pub categories: Set<u32>,
    pub deck_compat: i32,
    pub steamos_compat: i32,
    pub steam_machine_compat: i32,
    pub mastersub_appid: u32,
}

impl View for AppInfo {
    type V = AppInfoView;

    open spec fn view(&self) -> AppInfoView {
        AppInfoView {
            controller_support: self.controller_support@,
            languages: self.languages@,
            store_tags: self.store_tags@,
            categories: self.categories@,
            deck_compat: self.deck_compat,
            steamos_compat: self.steamos_compat,
            steam_machine_compat: self.steam_machine_compat,
            mastersub_appid: self.mastersub_appid,
        }
    }
}

/// An app Steam has no metadata on: nothing listed, every number zero.
pub open spec fn blank_info() -> AppInfoView {
    AppInfoView {
        controller_support: Seq::empty(),
        languages: Set::empty(),
        store_tags: Set::empty(),
        categories: Set::empty(),
        deck_compat: 0,
        steamos_compat: 0,
        steam_machine_compat: 0,
        mastersub_appid: 0,
    }
}

impl Default for AppInfo {
    fn default() -> (info: AppInfo)
        ensures
            info@ == blank_info(),
    {
        AppInfo {
            controller_support: String::new(),
            languages: HashSet::new(),
            store_tags: HashSet::new(),
            categories: HashSet::new(),
            deck_compat: 0,
            steamos_compat: 0,
            steam_machine_compat: 0,
            mastersub_appid: 0,
        }
    }
}

impl AppInfo {
    pub fn has_category(&self, id: u32) -> (r: bool)
        ensures
            r == self@.categories.contains(id),
    {
        self.categories.contains(&id)
    }

    pub fn has_store_tag(&self, id: u32) -> (r: bool)
        ensures
            r == self@.store_tags.contains(id),
    {
        self.store_tags.contains(&id)
    }

    pub fn has_language(&self, index: u32) -> (r: bool)
        ensures
            r == self@.languages.contains(index),
    {
        self.languages.contains(&index)
    }
}

/// The little-endian 32-bit number at `p`.
pub open spec fn u32_le(buf: Seq<u8>, p: int) -> u32 {
    (buf[p] + 256 * buf[p + 1] + 65536 * buf[p + 2] + 16777216 * buf[p + 3]) as u32
}

/// The little-endian 64-bit number at `p`.
pub open spec fn u64_le(buf: Seq<u8>, p: int) -> u64 {
    (u32_le(buf, p) + 0x1_0000_0000 * u32_le(buf, p + 4)) as u64
}

/// The first zero byte at or after `i`.
pub open spec fn zero_from(buf: Seq<u8>, i: int) -> Option<int>
    decreases buf.len() - i,
{
    if i < 0 || i >= buf.len() {
        None
    } else if buf[i] == 0 {
        Some(i)
    } else {
        zero_from(buf, i + 1)
    }
}

/// Names what `String::from_utf8_lossy` makes of `bytes`.
pub uninterp spec fn utf8_lossy(bytes: Seq<u8>) -> Seq<char>;

/// Every byte is ASCII.
pub open spec fn all_ascii(bytes: Seq<u8>) -> bool {
    forall|i: int| 0 <= i < bytes.len() ==> #[trigger] bytes[i] < 128
}

/// ASCII bytes as the characters they encode.
pub open spec fn ascii_text(bytes: Seq<u8>) -> Seq<char> {
    bytes.map_values(|b: u8| b as char)
}

/// The text of a string's bytes: for ASCII, the characters they encode;
/// otherwise what `String::from_utf8_lossy` makes of them.
pub open spec fn decoded_text(bytes: Seq<u8>) -> Seq<char> {
    if all_ascii(bytes) { ascii_text(bytes) } else { utf8_lossy(bytes) }
}

/// Calls `String::from_utf8_lossy` and takes the result as an owned string;
/// its characters are `utf8_lossy` of the bytes. ASCII is valid UTF-8, which
/// std documents is decoded unchanged: each byte is its own character.
#[verifier::external_body]
fn lossy_string(bytes: &[u8]) -> (s: String)
    ensures
        s@ == utf8_lossy(bytes@),
        all_ascii(bytes@) ==> s@ == ascii_text(bytes@),
{
    String::from_utf8_lossy(bytes).into_owned()
}

/// The NUL-terminated string at `pos`: where reading continues, and its text.
pub open spec fn cstr_at(buf: Seq<u8>, pos: int) -> Option<(int, Seq<char>)> {
    match zero_from(buf, pos) {
        Some(z) => Some((z + 1, decoded_text(buf.subrange(pos, z)))),
        None => None,
    }
}

pub proof fn lemma_zero_from(buf: Seq<u8>, i: int)
    ensures
        zero_from(buf, i) matches Some(z) ==> 0 <= i <= z < buf.len() && buf[z] == 0,
        zero_from(buf, i) matches Some(z) ==> forall|j: int| i <= j < z ==> buf[j] != 0,
    decreases buf.len() - i,
{
    if 0 <= i < buf.len() && buf[i] != 0 {
        lemma_zero_from(buf, i + 1);
    }
}

/// Where a value of binary KeyValues type `kv_type` that starts at `pos` ends;
/// `depth` is how many skipped blocks enclose it.
pub open spec fn skip_value_end(buf: Seq<u8>, pos: int, kv_type: u8, depth: nat) -> Option<int>
    decreases buf.len() - pos, 2nat,
{
    if kv_type == 0 {
        skip_block_end(buf, pos, depth)
    } else if kv_type == 1 || kv_type == 5 {
        match cstr_at(buf, pos) {
            Some((end, _)) => Some(end),
            None => None,
        }
    } else if kv_type == 2 || kv_type == 3 || kv_type == 4 || kv_type == 6 {
        if pos + 4 <= buf.len() { Some(pos + 4) } else { None }
    } else if kv_type == 7 {
        if pos + 8 <= buf.len() { Some(pos + 8) } else { None }
    } else {
        None
    }
}

/// Where a block whose entries start at `pos` ends; a block deeper than
/// [`MAX_DEPTH`] is refused.
pub open spec fn skip_block_end(buf: Seq<u8>, pos: int, depth: nat) -> Option<int>
    decreases buf.len() - pos, 1nat,
{
    if depth + 1 > MAX_DEPTH {
        None
    } else {
        skip_entries_end(buf, pos, depth + 1)
    }
}

/// Where the entries from `pos` up to their closing `8` end.
pub open spec fn skip_entries_end(buf: Seq<u8>, pos: int, depth: nat) -> Option<int>
    decreases buf.len() - pos, 0nat,
{
    if pos < 0 || pos >= buf.len() {
        None
    } else if buf[pos] == 8 {
        Some(pos + 1)
    } else if pos + 5 > buf.len() {
        None
    } else {
        match skip_value_end(buf, pos + 5, buf[pos], depth) {
            Some(next) => if pos < next <= buf.len() {
                skip_entries_end(buf, next, depth)
            } else {
                None
            },
            None => None,
        }
    }
}

pub proof fn lemma_skip_value_end(buf: Seq<u8>, pos: int, kv_type: u8, depth: nat)
    requires
        0 <= pos,
    ensures
        skip_value_end(buf, pos, kv_type, depth) matches Some(end) ==> pos < end <= buf.len(),
    decreases buf.len() - pos, 2nat,
{
    if kv_type == 0 {
        lemma_skip_block_end(buf, pos, depth);
    } else {
        lemma_zero_from(buf, pos);
    }
}

pub proof fn lemma_skip_block_end(buf: Seq<u8>, pos: int, depth: nat)
    requires
        0 <= pos,
    ensures
        skip_block_end(buf, pos, depth) matches Some(end) ==> pos < end <= buf.len(),
    decreases buf.len() - pos, 1nat,
{
    if depth + 1 <= MAX_DEPTH {
        lemma_skip_entries_end(buf, pos, depth + 1);
    }
}

pub proof fn lemma_skip_entries_end(buf: Seq<u8>, pos: int, depth: nat)
    requires
        0 <= pos,
    ensures
        skip_entries_end(buf, pos, depth) matches Some(end) ==> pos < end <= buf.len(),
    decreases buf.len() - pos, 0nat,
{
    if pos < buf.len() && buf[pos] != 8 && pos + 5 <= buf.len() {
        if let Some(next) = skip_value_end(buf, pos + 5, buf[pos], depth) {
            if pos < next <= buf.len() {
                lemma_skip_entries_end(buf, next, depth);
            }
        }
    }
}

struct Cursor<'a> {
    buf: &'a [u8],
    pos: usize,
    depth: u8,
}

impl<'a> Cursor<'a> {
    fn new(buf: &'a [u8], pos: usize) -> (c: Self)
        ensures
            c.buf == buf,
            c.pos == pos,
            c.depth == 0,
    {
        Cursor { buf, pos, depth: 0 }
    }

    fn take(&mut self, n: usize) -> (r: Option<&'a [u8]>)
        ensures
            final(self).buf == old(self).buf,
            final(self).depth == old(self).depth,
            old(self).pos + n <= old(self).buf@.len() ==> {
                &&& r is Some
                &&& r.unwrap()@ == old(self).buf@.subrange(old(self).pos as int, old(self).pos + n)
                &&& final(self).pos == old(self).pos + n
            },
            old(self).pos + n > old(self).buf@.len() ==> r is None && final(self).pos == old(self).pos,
    {
        let len = self.buf.len();
        let end = match self.pos.checked_add(n) {
            Some(end) => end,
            None => return None,
        };
        if end > len {
            return None;
        }
        let slice = vstd::slice::slice_subrange(self.buf, self.pos, end);
        self.pos = end;
        Some(slice)
    }

    fn u8(&mut self) -> (r: Option<u8>)
        ensures
            final(self).buf == old(self).buf,
            final(self).depth == old(self).depth,
            old(self).pos < old(self).buf@.len() ==> r == Some(old(self).buf@[old(self).pos as int])
                && final(self).pos == old(self).pos + 1,
            old(self).pos >= old(self).buf@.len() ==> r is None && final(self).pos == old(self).pos,
    {
        match self.take(1) {
            Some(bytes) => Some(bytes[0]),
            None => None,
        }
    }

    fn u32(&mut self) -> (r: Option<u32>)
        ensures
            final(self).buf == old(self).buf,
            final(self).depth == old(self).depth,
            old(self).pos + 4 <= old(self).buf@.len() ==> r == Some(
                u32_le(old(self).buf@, old(self).pos as int),
            ) && final(self).pos == old(self).pos + 4,
            old(self).pos + 4 > old(self).buf@.len() ==> r is None && final(self).pos == old(self).pos,
    {
        match self.take(4) {
            Some(b) => {
                let v = b[0] as u32 + 256 * (b[1] as u32) + 65536 * (b[2] as u32) + 16777216 * (
                b[3] as u32);
                Some(v)
            },
            None => None,
        }
    }

    fn i32(&mut self) -> (r: Option<i32>)
        ensures
            final(self).buf == old(self).buf,
            final(self).depth == old(self).depth,
            old(self).pos + 4 <= old(self).buf@.len() ==> r == Some(
                u32_le(old(self).buf@, old(self).pos as int) as i32,
            ) && final(self).pos == old(self).pos + 4,
            old(self).pos + 4 > old(self).buf@.len() ==> r is None && final(self).pos == old(self).pos,
    {
        match self.u32() {
            Some(v) => Some(v as i32),
            None => None,
        }
    }

    fn i64(&mut self) -> (r: Option<i64>)
        ensures
            final(self).buf == old(self).buf,
            final(self).depth == old(self).depth,
            old(self).pos + 8 <= old(self).buf@.len() ==> r == Some(
                u64_le(old(self).buf@, old(self).pos as int) as i64,
            ) && final(self).pos == old(self).pos + 8,
            old(self).pos + 8 > old(self).buf@.len() ==> r is None && final(self).pos == old(self).pos,
    {
        let len = self.buf.len();
        if self.pos.checked_add(8).is_none() || self.pos + 8 > len {
            return None;
        }
        let low = self.u32().unwrap();
        let high = self.u32().unwrap();
        Some((low as u64 + 0x1_0000_0000 * (high as u64)) as i64)
    }

    fn cstr(&mut self) -> (r: Option<String>)
        ensures
            final(self).buf == old(self).buf,
            final(self).depth == old(self).depth,
            match cstr_at(old(self).buf@, old(self).pos as int) {
                Some((end, text)) => r is Some && r.unwrap()@ == text && final(self).pos == end,
                None => r is None,
            },
    {
        let len = self.buf.len();
        if self.pos > len {
            return None;
        }
        let mut z = self.pos;
        while z < len && self.buf[z] != 0
            invariant
                len == self.buf@.len(),
                old(self).pos <= z <= len,
                self.buf == old(self).buf,
                self.pos == old(self).pos,
                zero_from(self.buf@, old(self).pos as int) == zero_from(self.buf@, z as int),
            decreases len - z,
        {
            z = z + 1;
        }
        if z == len {
            return None;
        }
        let s = lossy_string(vstd::slice::slice_subrange(self.buf, self.pos, z));
        self.pos = z + 1;
        Some(s)
    }

    fn skip_value(&mut self, kv_type: u8) -> (r: Option<()>)
        requires
            old(self).depth <= MAX_DEPTH,
            old(self).pos <= old(self).buf@.len(),
        ensures
            final(self).buf == old(self).buf,
            match skip_value_end(old(self).buf@, old(self).pos as int, kv_type, old(self).depth as nat) {
                Some(end) => r is Some && final(self).pos == end && final(self).depth == old(self).depth,
                None => r is None,
            },
        decreases old(self).buf@.len() - old(self).pos, 2nat,
    {
        if kv_type == 0 {
            self.skip_block()
        } else if kv_type == 1 || kv_type == 5 {
            match self.cstr() {
                Some(_) => Some(()),
                None => None,
            }
        } else if kv_type == 2 || kv_type == 3 || kv_type == 4 || kv_type == 6 {
            match self.take(4) {
                Some(_) => Some(()),
                None => None,
            }
        } else if kv_type == 7 {
            match self.take(8) {
                Some(_) => Some(()),
                None => None,
            }
        } else {
            None
        }
    }

    fn skip_block(&mut self) -> (r: Option<()>)
        requires
            old(self).depth <= MAX_DEPTH,
            old(self).pos <= old(self).buf@.len(),
        ensures
            final(self).buf == old(self).buf,
            match skip_block_end(old(self).buf@, old(self).pos as int, old(self).depth as nat) {
                Some(end) => r is Some && final(self).pos == end && final(self).depth == old(self).depth,
                None => r is None,
            },
        decreases old(self).buf@.len() - old(self).pos, 1nat,
    {
        self.depth = self.depth + 1;
        if self.depth > MAX_DEPTH {
            return None;
        }
        loop
            invariant
                self.buf == old(self).buf,
                self.depth == old(self).depth + 1,
                self.depth <= MAX_DEPTH,
                old(self).pos <= self.pos <= self.buf@.len(),
                skip_block_end(old(self).buf@, old(self).pos as int, old(self).depth as nat)
                    == skip_entries_end(self.buf@, self.pos as int, self.depth as nat),
            decreases self.buf@.len() - self.pos,
        {
            let kv_type = match self.u8() {
                Some(t) => t,
                None => return None,
            };
            if kv_type == 8 {
                self.depth = self.depth - 1;
                return Some(());
            }
            if self.u32().is_none() {
                return None;
            }
            let ghost at = self.pos as int;
            if self.skip_value(kv_type).is_none() {
                return None;
            }
            proof {
                lemma_skip_value_end(self.buf@, at, kv_type, self.depth as nat);
            }
        }
    }
}

/// The language Steam numbers `i` in its language order.
pub open spec fn language_name(i: int) -> Seq<char> {
    if i == 0 {
        "english"@
    } else if i == 1 {
        "german"@
    } else if i == 2 {
        "french"@
    } else if i == 3 {
        "italian"@
    } else if i == 4 {
        "koreana"@
    } else if i == 5 {
        "spanish"@
    } else if i == 6 {
        "schinese"@
    } else if i == 7 {
        "tchinese"@
    } else if i == 8 {
        "russian"@
    } else if i == 9 {
        "thai"@
    } else if i == 10 {
        "japanese"@
    } else if i == 11 {
        "portuguese"@
    } else if i == 12 {
        "polish"@
    } else if i == 13 {
        "danish"@
    } else if i == 14 {
        "dutch"@
    } else if i == 15 {
        "finnish"@
    } else if i == 16 {
        "norwegian"@
    } else if i == 17 {
        "swedish"@
    } else if i == 18 {
        "hungarian"@
    } else if i == 19 {
        "czech"@
    } else if i == 20 {
        "romanian"@
    } else if i == 21 {
        "turkish"@
    } else if i == 22 {
        "brazilian"@
    } else if i == 23 {
        "bulgarian"@
    } else if i == 24 {
        "greek"@
    } else if i == 25 {
        "arabic"@
    } else if i == 26 {
        "ukrainian"@
    } else if i == 27 {
        "latam"@
    } else if i == 28 {
        "vietnamese"@
    } else if i == 29 {
        "sc_schinese"@
    } else if i == 30 {
        "indonesian"@
    } else {
        "malay"@
    }
}

fn language_name_str(i: u32) -> (s: &'static str)
    requires
        i < 32,
    ensures
        s@ == language_name(i as int),
{
    if i == 0 {
        "english"
    } else if i == 1 {
        "german"
    } else if i == 2 {
        "french"
    } else if i == 3 {
        "italian"
    } else if i == 4 {
        "koreana"
    } else if i == 5 {
        "spanish"
    } else if i == 6 {
        "schinese"
    } else if i == 7 {
        "tchinese"
    } else if i == 8 {
        "russian"
    } else if i == 9 {
        "thai"
    } else if i == 10 {
        "japanese"
    } else if i == 11 {
        "portuguese"
    } else if i == 12 {
        "polish"
    } else if i == 13 {
        "danish"
    } else if i == 14 {
        "dutch"
    } else if i == 15 {
        "finnish"
    } else if i == 16 {
        "norwegian"
    } else if i == 17 {
        "swedish"
    } else if i == 18 {
        "hungarian"
    } else if i == 19 {
        "czech"
    } else if i == 20 {
        "romanian"
    } else if i == 21 {
        "turkish"
    } else if i == 22 {
        "brazilian"
    } else if i == 23 {
        "bulgarian"
    } else if i == 24 {
        "greek"
    } else if i == 25 {
        "arabic"
    } else if i == 26 {
        "ukrainian"
    } else if i == 27 {
        "latam"
    } else if i == 28 {
        "vietnamese"
    } else if i == 29 {
        "sc_schinese"
    } else if i == 30 {
        "indonesian"
    } else {
        "malay"
    }
}

/// The index of `name` in Steam's language order, after the first match from
/// `i` on; Steam takes `korean` for `koreana`.
pub open spec fn language_index_from(name: Seq<char>, i: int) -> Option<u32>
    decreases 32 - i,
{
    if i < 0 || i >= 32 {
        None
    } else if language_name(i) == name {
        Some(i as u32)
    } else {
        language_index_from(name, i + 1)
    }
}

/// The index of a language name in Steam's language order.
pub open spec fn language_index_of(name: Seq<char>) -> Option<u32> {
    language_index_from(if name == "korean"@ { "koreana"@ } else { name }, 0)
}

pub fn language_index(name: &str) -> (r: Option<u32>)
    ensures
        r == language_index_of(name@),
{
    let wanted = if str_eq(name, "korean") { "koreana" } else { name };
    let mut i: u32 = 0;
    while i < 32
        invariant
            i <= 32,
            language_index_of(name@) == language_index_from(wanted@, i as int),
        decreases 32 - i,
    {
        if str_eq(language_name_str(i), wanted) {
            return Some(i);
        }
        i = i + 1;
    }
    None
}

/// Steam's language order: each language name reads as its position in
/// english, german, french, italian, koreana, spanish, schinese, tchinese,
/// russian, thai, japanese, portuguese, polish, danish, dutch, finnish,
/// norwegian, swedish, hungarian, czech, romanian, turkish, brazilian,
/// bulgarian, greek, arabic, ukrainian, latam, vietnamese, sc_schinese,
/// indonesian, malay; `korean` reads as `koreana`, and no other name reads as
/// a language.
pub proof fn steams_language_order()
    ensures
        language_index_of("english"@) == Some(0u32),
        language_index_of("german"@) == Some(1u32),
        language_index_of("french"@) == Some(2u32),
        language_index_of("italian"@) == Some(3u32),
        language_index_of("koreana"@) == Some(4u32),
        language_index_of("spanish"@) == Some(5u32),
        language_index_of("schinese"@) == Some(6u32),
        language_index_of("tchinese"@) == Some(7u32),
        language_index_of("russian"@) == Some(8u32),
        language_index_of("thai"@) == Some(9u32),
        language_index_of("japanese"@) == Some(10u32),
        language_index_of("portuguese"@) == Some(11u32),
        language_index_of("polish"@) == Some(12u32),
        language_index_of("danish"@) == Some(13u32),
        language_index_of("dutch"@) == Some(14u32),
        language_index_of("finnish"@) == Some(15u32),
        language_index_of("norwegian"@) == Some(16u32),
        language_index_of("swedish"@) == Some(17u32),
        language_index_of("hungarian"@) == Some(18u32),
        language_index_of("czech"@) == Some(19u32),
        language_index_of("romanian"@) == Some(20u32),
        language_index_of("turkish"@) == Some(21u32),
        language_index_of("brazilian"@) == Some(22u32),
        language_index_of("bulgarian"@) == Some(23u32),
        language_index_of("greek"@) == Some(24u32),
        language_index_of("arabic"@) == Some(25u32),
        language_index_of("ukrainian"@) == Some(26u32),
        language_index_of("latam"@) == Some(27u32),
        language_index_of("vietnamese"@) == Some(28u32),
        language_index_of("sc_schinese"@) == Some(29u32),
        language_index_of("indonesian"@) == Some(30u32),
        language_index_of("malay"@) == Some(31u32),
        language_index_of("korean"@) == Some(4u32),
        forall|name: Seq<char>| #[trigger] language_index_of(name) is Some ==> (name == "english"@ || name == "german"@ || name == "french"@ || name == "italian"@ || name == "koreana"@ || name == "spanish"@ || name == "schinese"@ || name == "tchinese"@ || name == "russian"@ || name == "thai"@ || name == "japanese"@ || name == "portuguese"@ || name == "polish"@ || name == "danish"@ || name == "dutch"@ || name == "finnish"@ || name == "norwegian"@ || name == "swedish"@ || name == "hungarian"@ || name == "czech"@ || name == "romanian"@ || name == "turkish"@ || name == "brazilian"@ || name == "bulgarian"@ || name == "greek"@ || name == "arabic"@ || name == "ukrainian"@ || name == "latam"@ || name == "vietnamese"@ || name == "sc_schinese"@ || name == "indonesian"@ || name == "malay"@ || name == "korean"@),
{
    reveal_strlit("english");
    reveal_strlit("german");
    reveal_strlit("french");
    reveal_strlit("italian");
    reveal_strlit("koreana");
    reveal_strlit("spanish");
    reveal_strlit("schinese");
    reveal_strlit("tchinese");
    reveal_strlit("russian");
    reveal_strlit("thai");
    reveal_strlit("japanese");
    reveal_strlit("portuguese");
    reveal_strlit("polish");
    reveal_strlit("danish");
    reveal_strlit("dutch");
    reveal_strlit("finnish");
    reveal_strlit("norwegian");
    reveal_strlit("swedish");
    reveal_strlit("hungarian");
    reveal_strlit("czech");
    reveal_strlit("romanian");
    reveal_strlit("turkish");
    reveal_strlit("brazilian");
    reveal_strlit("bulgarian");
    reveal_strlit("greek");
    reveal_strlit("arabic");
    reveal_strlit("ukrainian");
    reveal_strlit("latam");
    reveal_strlit("vietnamese");
    reveal_strlit("sc_schinese");
    reveal_strlit("indonesian");
    reveal_strlit("malay");
    reveal_strlit("korean");
    reveal_with_fuel(language_index_from, 33);
    assert("german"@[0] != "korean"@[0]);
    assert("german"@[0] != "french"@[0]);
    assert("french"@[0] != "korean"@[0]);
    assert("english"@[0] != "italian"@[0]);
    assert("english"@[0] != "koreana"@[0]);
    assert("italian"@[0] != "koreana"@[0]);
    assert("english"@[0] != "spanish"@[0]);
    assert("italian"@[0] != "spanish"@[0]);
    assert("koreana"@[0] != "spanish"@[0]);
    assert("schinese"@[0] != "tchinese"@[0]);
    assert("english"@[0] != "russian"@[0]);
    assert("italian"@[0] != "russian"@[0]);
    assert("koreana"@[0] != "russian"@[0]);
    assert("spanish"@[0] != "russian"@[0]);
    assert("schinese"@[0] != "japanese"@[0]);
    assert("tchinese"@[0] != "japanese"@[0]);
    assert("german"@[0] != "polish"@[0]);
    assert("french"@[0] != "polish"@[0]);
    assert("polish"@[0] != "korean"@[0]);
    assert("german"@[0] != "danish"@[0]);
    assert("french"@[0] != "danish"@[0]);
    assert("polish"@[0] != "danish"@[0]);
    assert("danish"@[0] != "korean"@[0]);
    assert("english"@[0] != "finnish"@[0]);
    assert("italian"@[0] != "finnish"@[0]);
    assert("koreana"@[0] != "finnish"@[0]);
    assert("spanish"@[0] != "finnish"@[0]);
    assert("russian"@[0] != "finnish"@[0]);
    assert("english"@[0] != "swedish"@[0]);
    assert("italian"@[0] != "swedish"@[0]);
    assert("koreana"@[0] != "swedish"@[0]);
    assert("spanish"@[1] != "swedish"@[1]);
    assert("russian"@[0] != "swedish"@[0]);
    assert("finnish"@[0] != "swedish"@[0]);
    assert("norwegian"@[0] != "hungarian"@[0]);
    assert("dutch"@[0] != "czech"@[0]);
    assert("schinese"@[0] != "romanian"@[0]);
    assert("tchinese"@[0] != "romanian"@[0]);
    assert("japanese"@[0] != "romanian"@[0]);
    assert("english"@[0] != "turkish"@[0]);
    assert("italian"@[0] != "turkish"@[0]);
    assert("koreana"@[0] != "turkish"@[0]);
    assert("spanish"@[0] != "turkish"@[0]);
    assert("russian"@[0] != "turkish"@[0]);
    assert("finnish"@[0] != "turkish"@[0]);
    assert("swedish"@[0] != "turkish"@[0]);
    assert("norwegian"@[0] != "brazilian"@[0]);
    assert("hungarian"@[0] != "brazilian"@[0]);
    assert("norwegian"@[0] != "bulgarian"@[0]);
    assert("hungarian"@[0] != "bulgarian"@[0]);
    assert("brazilian"@[1] != "bulgarian"@[1]);
    assert("dutch"@[0] != "greek"@[0]);
    assert("czech"@[0] != "greek"@[0]);
    assert("german"@[0] != "arabic"@[0]);
    assert("french"@[0] != "arabic"@[0]);
    assert("polish"@[0] != "arabic"@[0]);
    assert("danish"@[0] != "arabic"@[0]);
    assert("arabic"@[0] != "korean"@[0]);
    assert("norwegian"@[0] != "ukrainian"@[0]);
    assert("hungarian"@[0] != "ukrainian"@[0]);
    assert("brazilian"@[0] != "ukrainian"@[0]);
    assert("bulgarian"@[0] != "ukrainian"@[0]);
    assert("dutch"@[0] != "latam"@[0]);
    assert("czech"@[0] != "latam"@[0]);
    assert("greek"@[0] != "latam"@[0]);
    assert("portuguese"@[0] != "vietnamese"@[0]);
    assert("portuguese"@[0] != "indonesian"@[0]);
    assert("vietnamese"@[0] != "indonesian"@[0]);
    assert("dutch"@[0] != "malay"@[0]);
    assert("czech"@[0] != "malay"@[0]);
    assert("greek"@[0] != "malay"@[0]);
    assert("latam"@[0] != "malay"@[0]);
    assert forall|name: Seq<char>| #[trigger] language_index_of(name) is Some implies (name == "english"@ || name == "german"@ || name == "french"@ || name == "italian"@ || name == "koreana"@ || name == "spanish"@ || name == "schinese"@ || name == "tchinese"@ || name == "russian"@ || name == "thai"@ || name == "japanese"@ || name == "portuguese"@ || name == "polish"@ || name == "danish"@ || name == "dutch"@ || name == "finnish"@ || name == "norwegian"@ || name == "swedish"@ || name == "hungarian"@ || name == "czech"@ || name == "romanian"@ || name == "turkish"@ || name == "brazilian"@ || name == "bulgarian"@ || name == "greek"@ || name == "arabic"@ || name == "ukrainian"@ || name == "latam"@ || name == "vietnamese"@ || name == "sc_schinese"@ || name == "indonesian"@ || name == "malay"@ || name == "korean"@) by {
        let wanted = if name == "korean"@ { "koreana"@ } else { name };
        lemma_language_index_names(wanted, 0);
    }
}

/// A name reads as position `i` only where it is the language named there.
proof fn lemma_language_index_names(name: Seq<char>, i: int)
    ensures
        language_index_from(name, i) matches Some(k) ==> 0 <= k < 32 && language_name(k as int) == name,
    decreases 32 - i,
{
    if 0 <= i < 32 && language_name(i) != name {
        lemma_language_index_names(name, i + 1);
    }
}

/// The texts of a string table.
pub open spec fn table_text(strings: Seq<String>) -> Seq<Seq<char>> {
    strings.map_values(|s: String| s@)
}

/// The key an entry names by the string-table index at `pos`.
pub open spec fn key_at(buf: Seq<u8>, pos: int, strs: Seq<Seq<char>>) -> Option<Seq<char>> {
    if pos + 4 <= buf.len() && (u32_le(buf, pos) as int) < strs.len() {
        Some(strs[u32_le(buf, pos) as int])
    } else {
        None
    }
}

/// The entries of a block of numbers from `pos` on (`store_tags`): each
/// 32-bit or 64-bit value, cut to its low 32 bits, added to `set`.
pub open spec fn int_values_end(buf: Seq<u8>, pos: int, depth: nat, set: Set<u32>) -> Option<(int, Set<u32>)>
    decreases buf.len() - pos,
{
    if pos < 0 || pos >= buf.len() {
        None
    } else if buf[pos] == 8 {
        Some((pos + 1, set))
    } else if pos + 5 > buf.len() {
        None
    } else {
        let p = pos + 5;
        let t = buf[pos];
        if t == 2 {
            if p + 4 <= buf.len() { int_values_end(buf, p + 4, depth, set.insert(u32_le(buf, p))) } else { None }
        } else if t == 7 {
            if p + 8 <= buf.len() { int_values_end(buf, p + 8, depth, set.insert(u32_le(buf, p))) } else { None }
        } else {
            match skip_value_end(buf, p, t, depth) {
                Some(q) => if pos < q <= buf.len() { int_values_end(buf, q, depth, set) } else { None },
                None => None,
            }
        }
    }
}

/// A language's entry under `supported_languages`: whether its `supported`
/// key, the last one given, says so (`"true"`, or a non-zero number).
pub open spec fn language_entry_end(buf: Seq<u8>, strs: Seq<Seq<char>>, pos: int, depth: nat, supported: bool) -> Option<(int, bool)>
    decreases buf.len() - pos,
{
    if pos < 0 || pos >= buf.len() {
        None
    } else if buf[pos] == 8 {
        Some((pos + 1, supported))
    } else {
        match key_at(buf, pos + 1, strs) {
            None => None,
            Some(key) => {
                let p = pos + 5;
                let t = buf[pos];
                if t == 1 && key == "supported"@ {
                    match cstr_at(buf, p) {
                        Some((q, text)) => if pos < q <= buf.len() {
                            language_entry_end(buf, strs, q, depth, text == "true"@)
                        } else {
                            None
                        },
                        None => None,
                    }
                } else if t == 2 && key == "supported"@ {
                    if p + 4 <= buf.len() {
                        language_entry_end(buf, strs, p + 4, depth, u32_le(buf, p) != 0)
                    } else {
                        None
                    }
                } else {
                    match skip_value_end(buf, p, t, depth) {
                        Some(q) => if pos < q <= buf.len() {
                            language_entry_end(buf, strs, q, depth, supported)
                        } else {
                            None
                        },
                        None => None,
                    }
                }
            },
        }
    }
}

/// The entries of `supported_languages` from `pos` on: the index of each
/// known language whose entry says it is supported, added to `set`.
pub open spec fn languages_end(buf: Seq<u8>, strs: Seq<Seq<char>>, pos: int, depth: nat, set: Set<u32>) -> Option<(int, Set<u32>)>
    decreases buf.len() - pos,
{
    if pos < 0 || pos >= buf.len() {
        None
    } else if buf[pos] == 8 {
        Some((pos + 1, set))
    } else {
        match key_at(buf, pos + 1, strs) {
            None => None,
            Some(key) => {
                let p = pos + 5;
                let t = buf[pos];
                if t != 0 {
                    match skip_value_end(buf, p, t, depth) {
                        Some(q) => if pos < q <= buf.len() { languages_end(buf, strs, q, depth, set) } else { None },
                        None => None,
                    }
                } else {
                    match language_entry_end(buf, strs, p, depth, false) {
                        Some((q, supported)) => if pos < q <= buf.len() {
                            languages_end(
                                buf,
                                strs,
                                q,
                                depth,
                                if supported && language_index_of(key) is Some {
                                    set.insert(language_index_of(key).unwrap())
                                } else {
                                    set
                                },
                            )
                        } else {
                            None
                        },
                        None => None,
                    }
                }
            },
        }
    }
}

/// The category id a `category` key names: `category_<n>` with `n` what
/// `u32::from_str` reads.
pub open spec fn category_id(key: Seq<char>) -> Option<u32> {
    let prefix = "category_"@;
    if prefix.len() <= key.len() && key.subrange(0, prefix.len() as int) == prefix {
        parsed_u32(key.subrange(prefix.len() as int, key.len() as int))
    } else {
        None
    }
}

/// The entries of `category` from `pos` on: the id each key names, added to `set`.
pub open spec fn categories_end(buf: Seq<u8>, strs: Seq<Seq<char>>, pos: int, depth: nat, set: Set<u32>) -> Option<(int, Set<u32>)>
    decreases buf.len() - pos,
{
    if pos < 0 || pos >= buf.len() {
        None
    } else if buf[pos] == 8 {
        Some((pos + 1, set))
    } else {
        match key_at(buf, pos + 1, strs) {
            None => None,
            Some(key) => {
                let next_set = match category_id(key) {
                    Some(id) => set.insert(id),
                    None => set,
                };
                match skip_value_end(buf, pos + 5, buf[pos], depth) {
                    Some(q) => if pos < q <= buf.len() { categories_end(buf, strs, q, depth, next_set) } else { None },
                    None => None,
                }
            },
        }
    }
}

/// `info` with the compatibility rating that `key` names set to `v`.
pub open spec fn with_compat(info: AppInfoView, key: Seq<char>, v: i32) -> AppInfoView {
    if key == "category"@ {
        AppInfoView { deck_compat: v, ..info }
    } else if key == "steamos_compatibility"@ {
        AppInfoView { steamos_compat: v, ..info }
    } else {
        AppInfoView { steam_machine_compat: v, ..info }
    }
}

pub open spec fn is_compat_key(key: Seq<char>) -> bool {
    key == "category"@ || key == "steamos_compatibility"@ || key == "steam_machine_compatibility"@
}

/// The entries of `steam_deck_compatibility` from `pos` on: the Deck, SteamOS
/// and Steam Machine ratings given as 32-bit numbers.
pub open spec fn deck_end(buf: Seq<u8>, strs: Seq<Seq<char>>, pos: int, depth: nat, info: AppInfoView) -> Option<(int, AppInfoView)>
    decreases buf.len() - pos,
{
    if pos < 0 || pos >= buf.len() {
        None
    } else if buf[pos] == 8 {
        Some((pos + 1, info))
    } else {
        match key_at(buf, pos + 1, strs) {
            None => None,
            Some(key) => {
                let p = pos + 5;
                let t = buf[pos];
                if t == 2 && is_compat_key(key) {
                    if p + 4 <= buf.len() {
                        deck_end(buf, strs, p + 4, depth, with_compat(info, key, u32_le(buf, p) as i32))
                    } else {
                        None
                    }
                } else {
                    match skip_value_end(buf, p, t, depth) {
                        Some(q) => if pos < q <= buf.len() { deck_end(buf, strs, q, depth, info) } else { None },
                        None => None,
                    }
                }
            },
        }
    }
}

/// The entries of `common` from `pos` on, read into `info`.
pub open spec fn common_end(buf: Seq<u8>, strs: Seq<Seq<char>>, pos: int, depth: nat, info: AppInfoView) -> Option<(int, AppInfoView)>
    decreases buf.len() - pos,
{
    if pos < 0 || pos >= buf.len() {
        None
    } else if buf[pos] == 8 {
        Some((pos + 1, info))
    } else {
        match key_at(buf, pos + 1, strs) {
            None => None,
            Some(key) => {
                let p = pos + 5;
                let t = buf[pos];
                let step: Option<(int, AppInfoView)> = if t == 1 && key == "controller_support"@ {
                    match cstr_at(buf, p) {
                        Some((q, text)) => Some((q, AppInfoView { controller_support: text, ..info })),
                        None => None,
                    }
                } else if t == 2 && key == "mastersubs_granting_app"@ {
                    if p + 4 <= buf.len() {
                        Some((p + 4, AppInfoView { mastersub_appid: u32_le(buf, p), ..info }))
                    } else {
                        None
                    }
                } else if t == 0 && key == "store_tags"@ {
                    match int_values_end(buf, p, depth, info.store_tags) {
                        Some((q, tags)) => Some((q, AppInfoView { store_tags: tags, ..info })),
                        None => None,
                    }
                } else if t == 0 && key == "category"@ {
                    match categories_end(buf, strs, p, depth, info.categories) {
                        Some((q, ids)) => Some((q, AppInfoView { categories: ids, ..info })),
                        None => None,
                    }
                } else if t == 0 && key == "supported_languages"@ {
                    match languages_end(buf, strs, p, depth, info.languages) {
                        Some((q, langs)) => Some((q, AppInfoView { languages: langs, ..info })),
                        None => None,
                    }
                } else if t == 0 && key == "steam_deck_compatibility"@ {
                    deck_end(buf, strs, p, depth, info)
                } else {
                    match skip_value_end(buf, p, t, depth) {
                        Some(q) => Some((q, info)),
                        None => None,
                    }
                };
                match step {
                    Some((q, next)) => if pos < q <= buf.len() { common_end(buf, strs, q, depth, next) } else { None },
                    None => None,
                }
            },
        }
    }
}

/// The entries of an app's blob from `pos` on, read into `info`: its
/// `common` block, found at the top level or, at the top level only, under
/// an `appinfo` block; other blocks are skipped whole.
pub open spec fn app_end(buf: Seq<u8>, strs: Seq<Seq<char>>, pos: int, depth: nat, nested: bool, info: AppInfoView) -> Option<(int, AppInfoView)>
    decreases buf.len() - pos,
{
    if pos < 0 || pos >= buf.len() {
        None
    } else if buf[pos] == 8 {
        Some((pos + 1, info))
    } else {
        match key_at(buf, pos + 1, strs) {
            None => None,
            Some(key) => {
                let p = pos + 5;
                let t = buf[pos];
                let step: Option<(int, AppInfoView)> = if t != 0 {
                    match skip_value_end(buf, p, t, depth) {
                        Some(q) => Some((q, info)),
                        None => None,
                    }
                } else if key == "common"@ {
                    common_end(buf, strs, p, depth, info)
                } else if key == "appinfo"@ && !nested {
                    if p < buf.len() { app_end(buf, strs, p, depth, true, info) } else { None }
                } else {
                    match skip_block_end(buf, p, depth) {
                        Some(q) => Some((q, info)),
                        None => None,
                    }
                };
                match step {
                    Some((q, next)) => if pos < q <= buf.len() { app_end(buf, strs, q, depth, nested, next) } else { None },
                    None => None,
                }
            },
        }
    }
}

proof fn lemma_int_values_end(buf: Seq<u8>, pos: int, depth: nat, set: Set<u32>)
    ensures
        int_values_end(buf, pos, depth, set) matches Some((q, _)) ==> pos < q <= buf.len(),
    decreases buf.len() - pos,
{
    if 0 <= pos < buf.len() && buf[pos] != 8 && pos + 5 <= buf.len() {
        let p = pos + 5;
        let t = buf[pos];
        if t == 2 {
            if p + 4 <= buf.len() {
                lemma_int_values_end(buf, p + 4, depth, set.insert(u32_le(buf, p)));
            }
        } else if t == 7 {
            if p + 8 <= buf.len() {
                lemma_int_values_end(buf, p + 8, depth, set.insert(u32_le(buf, p)));
            }
        } else if let Some(q) = skip_value_end(buf, p, t, depth) {
            if pos < q <= buf.len() {
                lemma_int_values_end(buf, q, depth, set);
            }
        }
    }
}

proof fn lemma_language_entry_end(buf: Seq<u8>, strs: Seq<Seq<char>>, pos: int, depth: nat, supported: bool)
    ensures
        language_entry_end(buf, strs, pos, depth, supported) matches Some((q, _)) ==> pos < q <= buf.len(),
    decreases buf.len() - pos,
{
    if 0 <= pos < buf.len() && buf[pos] != 8 {
        if let Some(key) = key_at(buf, pos + 1, strs) {
            let p = pos + 5;
            let t = buf[pos];
            if t == 1 && key == "supported"@ {
                if let Some((q, text)) = cstr_at(buf, p) {
                    if pos < q <= buf.len() {
                        lemma_language_entry_end(buf, strs, q, depth, text == "true"@);
                    }
                }
            } else if t == 2 && key == "supported"@ {
                if p + 4 <= buf.len() {
                    lemma_language_entry_end(buf, strs, p + 4, depth, u32_le(buf, p) != 0);
                }
            } else if let Some(q) = skip_value_end(buf, p, t, depth) {
                if pos < q <= buf.len() {
                    lemma_language_entry_end(buf, strs, q, depth, supported);
                }
            }
        }
    }
}

proof fn lemma_languages_end(buf: Seq<u8>, strs: Seq<Seq<char>>, pos: int, depth: nat, set: Set<u32>)
    ensures
        languages_end(buf, strs, pos, depth, set) matches Some((q, _)) ==> pos < q <= buf.len(),
    decreases buf.len() - pos,
{
    if 0 <= pos < buf.len() && buf[pos] != 8 {
        if let Some(key) = key_at(buf, pos + 1, strs) {
            let p = pos + 5;
            let t = buf[pos];
            if t != 0 {
                if let Some(q) = skip_value_end(buf, p, t, depth) {
                    if pos < q <= buf.len() {
                        lemma_languages_end(buf, strs, q, depth, set);
                    }
                }
            } else if let Some((q, supported)) = language_entry_end(buf, strs, p, depth, false) {
                if pos < q <= buf.len() {
                lemma_languages_end(
                    buf,
                    strs,
                    q,
                    depth,
                    if supported && language_index_of(key) is Some {
                        set.insert(language_index_of(key).unwrap())
                    } else {
                        set
                    },
                );
                }
            }
        }
    }
}

proof fn lemma_categories_end(buf: Seq<u8>, strs: Seq<Seq<char>>, pos: int, depth: nat, set: Set<u32>)
    ensures
        categories_end(buf, strs, pos, depth, set) matches Some((q, _)) ==> pos < q <= buf.len(),
    decreases buf.len() - pos,
{
    if 0 <= pos < buf.len() && buf[pos] != 8 {
        if let Some(key) = key_at(buf, pos + 1, strs) {
            let next_set = match category_id(key) {
                Some(id) => set.insert(id),
                None => set,
            };
            if let Some(q) = skip_value_end(buf, pos + 5, buf[pos], depth) {
                if pos < q <= buf.len() {
                    lemma_categories_end(buf, strs, q, depth, next_set);
                }
            }
        }
    }
}

proof fn lemma_deck_end(buf: Seq<u8>, strs: Seq<Seq<char>>, pos: int, depth: nat, info: AppInfoView)
    ensures
        deck_end(buf, strs, pos, depth, info) matches Some((q, _)) ==> pos < q <= buf.len(),
    decreases buf.len() - pos,
{
    if 0 <= pos < buf.len() && buf[pos] != 8 {
        if let Some(key) = key_at(buf, pos + 1, strs) {
            let p = pos + 5;
            let t = buf[pos];
            if t == 2 && is_compat_key(key) {
                if p + 4 <= buf.len() {
                    lemma_deck_end(buf, strs, p + 4, depth, with_compat(info, key, u32_le(buf, p) as i32));
                }
            } else if let Some(q) = skip_value_end(buf, p, t, depth) {
                if pos < q <= buf.len() {
                    lemma_deck_end(buf, strs, q, depth, info);
                }
            }
        }
    }
}

proof fn lemma_common_end(buf: Seq<u8>, strs: Seq<Seq<char>>, pos: int, depth: nat, info: AppInfoView)
    ensures
        common_end(buf, strs, pos, depth, info) matches Some((q, _)) ==> pos < q <= buf.len(),
    decreases buf.len() - pos,
{
    if 0 <= pos < buf.len() && buf[pos] != 8 {
        if let Some(key) = key_at(buf, pos + 1, strs) {
            let p = pos + 5;
            let t = buf[pos];
            let step: Option<(int, AppInfoView)> = if t == 1 && key == "controller_support"@ {
                match cstr_at(buf, p) {
                    Some((q, text)) => Some((q, AppInfoView { controller_support: text, ..info })),
                    None => None,
                }
            } else if t == 2 && key == "mastersubs_granting_app"@ {
                if p + 4 <= buf.len() {
                    Some((p + 4, AppInfoView { mastersub_appid: u32_le(buf, p), ..info }))
                } else {
                    None
                }
            } else if t == 0 && key == "store_tags"@ {
                match int_values_end(buf, p, depth, info.store_tags) {
                    Some((q, tags)) => Some((q, AppInfoView { store_tags: tags, ..info })),
                    None => None,
                }
            } else if t == 0 && key == "category"@ {
                match categories_end(buf, strs, p, depth, info.categories) {
                    Some((q, ids)) => Some((q, AppInfoView { categories: ids, ..info })),
                    None => None,
                }
            } else if t == 0 && key == "supported_languages"@ {
                match languages_end(buf, strs, p, depth, info.languages) {
                    Some((q, langs)) => Some((q, AppInfoView { languages: langs, ..info })),
                    None => None,
                }
            } else if t == 0 && key == "steam_deck_compatibility"@ {
                deck_end(buf, strs, p, depth, info)
            } else {
                match skip_value_end(buf, p, t, depth) {
                    Some(q) => Some((q, info)),
                    None => None,
                }
            };
            if let Some((q, next)) = step {
                if pos < q <= buf.len() {
                    lemma_common_end(buf, strs, q, depth, next);
                }
            }
        }
    }
}

proof fn lemma_app_end(buf: Seq<u8>, strs: Seq<Seq<char>>, pos: int, depth: nat, nested: bool, info: AppInfoView)
    ensures
        app_end(buf, strs, pos, depth, nested, info) matches Some((q, _)) ==> pos < q <= buf.len(),
    decreases buf.len() - pos,
{
    if 0 <= pos < buf.len() && buf[pos] != 8 {
        if let Some(key) = key_at(buf, pos + 1, strs) {
            let p = pos + 5;
            let t = buf[pos];
            let step: Option<(int, AppInfoView)> = if t != 0 {
                match skip_value_end(buf, p, t, depth) {
                    Some(q) => Some((q, info)),
                    None => None,
                }
            } else if key == "common"@ {
                common_end(buf, strs, p, depth, info)
            } else if key == "appinfo"@ && !nested {
                if p < buf.len() { app_end(buf, strs, p, depth, true, info) } else { None }
            } else {
                match skip_block_end(buf, p, depth) {
                    Some(q) => Some((q, info)),
                    None => None,
                }
            };
            if let Some((q, next)) = step {
                if pos < q <= buf.len() {
                    lemma_app_end(buf, strs, q, depth, nested, next);
                }
            }
        }
    }
}

impl<'a> Cursor<'a> {
    fn key<'s>(&mut self, strings: &'s [String]) -> (r: Option<&'s str>)
        ensures
            final(self).buf == old(self).buf,
            final(self).depth == old(self).depth,
            match key_at(old(self).buf@, old(self).pos as int, table_text(strings@)) {
                Some(k) => r is Some && r.unwrap()@ == k && final(self).pos == old(self).pos + 4,
                None => r is None,
            },
    {
        let index = self.u32()? as usize;
        if index < strings.len() {
            Some(strings[index].as_str())
        } else {
            None
        }
    }
}

fn read_int_values(cur: &mut Cursor, out: &mut HashSet<u32>) -> (r: Option<()>)
    requires
        old(cur).depth <= MAX_DEPTH,
        old(cur).pos <= old(cur).buf@.len(),
    ensures
        final(cur).buf == old(cur).buf,
        match int_values_end(old(cur).buf@, old(cur).pos as int, old(cur).depth as nat, old(out)@) {
            Some((q, set)) => r is Some && final(cur).pos == q && final(cur).depth == old(cur).depth
                && final(out)@ == set,
            None => r is None,
        },
{
    loop
        invariant
            cur.buf == old(cur).buf,
            cur.depth == old(cur).depth,
            cur.depth <= MAX_DEPTH,
            cur.pos <= cur.buf@.len(),
            int_values_end(cur.buf@, old(cur).pos as int, cur.depth as nat, old(out)@)
                == int_values_end(cur.buf@, cur.pos as int, cur.depth as nat, out@),
        decreases cur.buf@.len() - cur.pos,
    {
        let ghost at = cur.pos as int;
        let kv_type = cur.u8()?;
        if kv_type == 8 {
            return Some(());
        }
        cur.u32()?;
        if kv_type == 2 {
            let v = cur.i32()?;
            let ghost raw = u32_le(cur.buf@, at + 5);
            assert((raw as i32) as u32 == raw) by (bit_vector);
            out.insert(v as u32);
        } else if kv_type == 7 {
            let b = cur.take(8)?;
            let low = b[0] as u32 + 256 * (b[1] as u32) + 65536 * (b[2] as u32) + 16777216 * (
            b[3] as u32);
            out.insert(low);
        } else {
            cur.skip_value(kv_type)?;
            proof {
                lemma_skip_value_end(cur.buf@, at + 5, kv_type, cur.depth as nat);
            }
        }
    }
}

fn read_language_entry(cur: &mut Cursor, strings: &[String]) -> (r: Option<bool>)
    requires
        old(cur).depth <= MAX_DEPTH,
        old(cur).pos <= old(cur).buf@.len(),
    ensures
        final(cur).buf == old(cur).buf,
        match language_entry_end(old(cur).buf@, table_text(strings@), old(cur).pos as int, old(cur).depth as nat, false) {
            Some((q, supported)) => r == Some(supported) && final(cur).pos == q && final(cur).depth == old(cur).depth,
            None => r is None,
        },
{
    let ghost strs = table_text(strings@);
    let mut supported = false;
    loop
        invariant
            cur.buf == old(cur).buf,
            cur.depth == old(cur).depth,
            cur.depth <= MAX_DEPTH,
            cur.pos <= cur.buf@.len(),
            strs == table_text(strings@),
            language_entry_end(cur.buf@, strs, old(cur).pos as int, cur.depth as nat, false)
                == language_entry_end(cur.buf@, strs, cur.pos as int, cur.depth as nat, supported),
        decreases cur.buf@.len() - cur.pos,
    {
        let ghost at = cur.pos as int;
        let kv_type = cur.u8()?;
        if kv_type == 8 {
            return Some(supported);
        }
        let key = cur.key(strings)?;
        if kv_type == 1 && str_eq(key, "supported") {
            let text = cur.cstr()?;
            proof {
                lemma_zero_from(cur.buf@, at + 5);
            }
            supported = str_eq(text.as_str(), "true");
        } else if kv_type == 2 && str_eq(key, "supported") {
            supported = cur.i32()? != 0;
            let ghost raw = u32_le(cur.buf@, at + 5);
            assert(((raw as i32) != 0) == (raw != 0)) by (bit_vector);
        } else {
            cur.skip_value(kv_type)?;
            proof {
                lemma_skip_value_end(cur.buf@, at + 5, kv_type, cur.depth as nat);
            }
        }
    }
}

fn read_supported_languages(cur: &mut Cursor, strings: &[String], out: &mut HashSet<u32>) -> (r: Option<()>)
    requires
        old(cur).depth <= MAX_DEPTH,
        old(cur).pos <= old(cur).buf@.len(),
    ensures
        final(cur).buf == old(cur).buf,
        match languages_end(old(cur).buf@, table_text(strings@), old(cur).pos as int, old(cur).depth as nat, old(out)@) {
            Some((q, set)) => r is Some && final(cur).pos == q && final(cur).depth == old(cur).depth
                && final(out)@ == set,
            None => r is None,
        },
{
    let ghost strs = table_text(strings@);
    loop
        invariant
            cur.buf == old(cur).buf,
            cur.depth == old(cur).depth,
            cur.depth <= MAX_DEPTH,
            cur.pos <= cur.buf@.len(),
            strs == table_text(strings@),
            languages_end(cur.buf@, strs, old(cur).pos as int, cur.depth as nat, old(out)@)
                == languages_end(cur.buf@, strs, cur.pos as int, cur.depth as nat, out@),
        decreases cur.buf@.len() - cur.pos,
    {
        let ghost at = cur.pos as int;
        let kv_type = cur.u8()?;
        if kv_type == 8 {
            return Some(());
        }
        let key = cur.key(strings)?;
        let index = language_index(key);
        if kv_type != 0 {
            cur.skip_value(kv_type)?;
            proof {
                lemma_skip_value_end(cur.buf@, at + 5, kv_type, cur.depth as nat);
            }
            continue;
        }
        let supported = read_language_entry(cur, strings)?;
        proof {
            lemma_language_entry_end(cur.buf@, strs, at + 5, cur.depth as nat, false);
        }
        if supported {
            if let Some(index) = index {
                out.insert(index);
            }
        }
    }
}

fn read_category_keys(cur: &mut Cursor, strings: &[String], out: &mut HashSet<u32>) -> (r: Option<()>)
    requires
        old(cur).depth <= MAX_DEPTH,
        old(cur).pos <= old(cur).buf@.len(),
    ensures
        final(cur).buf == old(cur).buf,
        match categories_end(old(cur).buf@, table_text(strings@), old(cur).pos as int, old(cur).depth as nat, old(out)@) {
            Some((q, set)) => r is Some && final(cur).pos == q && final(cur).depth == old(cur).depth
                && final(out)@ == set,
            None => r is None,
        },
{
    let ghost strs = table_text(strings@);
    proof {
        reveal_strlit("category_");
    }
    loop
        invariant
            cur.buf == old(cur).buf,
            cur.depth == old(cur).depth,
            cur.depth <= MAX_DEPTH,
            cur.pos <= cur.buf@.len(),
            strs == table_text(strings@),
            "category_"@.len() == 9,
            categories_end(cur.buf@, strs, old(cur).pos as int, cur.depth as nat, old(out)@)
                == categories_end(cur.buf@, strs, cur.pos as int, cur.depth as nat, out@),
        decreases cur.buf@.len() - cur.pos,
    {
        let ghost at = cur.pos as int;
        let kv_type = cur.u8()?;
        if kv_type == 8 {
            return Some(());
        }
        let key = cur.key(strings)?;
        if has_prefix(key, "category_") {
            if let Some(id) = parse_u32_from(key, 9) {
                out.insert(id);
            }
        }
        cur.skip_value(kv_type)?;
        proof {
            lemma_skip_value_end(cur.buf@, at + 5, kv_type, cur.depth as nat);
        }
    }
}

fn read_deck_compat(cur: &mut Cursor, strings: &[String], out: &mut AppInfo) -> (r: Option<()>)
    requires
        old(cur).depth <= MAX_DEPTH,
        old(cur).pos <= old(cur).buf@.len(),
    ensures
        final(cur).buf == old(cur).buf,
        match deck_end(old(cur).buf@, table_text(strings@), old(cur).pos as int, old(cur).depth as nat, old(out)@) {
            Some((q, info)) => r is Some && final(cur).pos == q && final(cur).depth == old(cur).depth
                && final(out)@ == info,
            None => r is None,
        },
{
    let ghost strs = table_text(strings@);
    loop
        invariant
            cur.buf == old(cur).buf,
            cur.depth == old(cur).depth,
            cur.depth <= MAX_DEPTH,
            cur.pos <= cur.buf@.len(),
            strs == table_text(strings@),
            deck_end(cur.buf@, strs, old(cur).pos as int, cur.depth as nat, old(out)@)
                == deck_end(cur.buf@, strs, cur.pos as int, cur.depth as nat, out@),
        decreases cur.buf@.len() - cur.pos,
    {
        let ghost at = cur.pos as int;
        let kv_type = cur.u8()?;
        if kv_type == 8 {
            return Some(());
        }
        let key = cur.key(strings)?;
        let is_deck = str_eq(key, "category");
        let is_steamos = str_eq(key, "steamos_compatibility");
        let is_machine = str_eq(key, "steam_machine_compatibility");
        if kv_type == 2 && (is_deck || is_steamos || is_machine) {
            let v = cur.i32()?;
            if is_deck {
                out.deck_compat = v;
            } else if is_steamos {
                out.steamos_compat = v;
            } else {
                out.steam_machine_compat = v;
            }
        } else {
            cur.skip_value(kv_type)?;
            proof {
                lemma_skip_value_end(cur.buf@, at + 5, kv_type, cur.depth as nat);
            }
        }
    }
}

fn read_common(cur: &mut Cursor, strings: &[String], out: &mut AppInfo) -> (r: Option<()>)
    requires
        old(cur).depth <= MAX_DEPTH,
        old(cur).pos <= old(cur).buf@.len(),
    ensures
        final(cur).buf == old(cur).buf,
        match common_end(old(cur).buf@, table_text(strings@), old(cur).pos as int, old(cur).depth as nat, old(out)@) {
            Some((q, info)) => r is Some && final(cur).pos == q && final(cur).depth == old(cur).depth
                && final(out)@ == info,
            None => r is None,
        },
{
    let ghost strs = table_text(strings@);
    loop
        invariant
            cur.buf == old(cur).buf,
            cur.depth == old(cur).depth,
            cur.depth <= MAX_DEPTH,
            cur.pos <= cur.buf@.len(),
            strs == table_text(strings@),
            common_end(cur.buf@, strs, old(cur).pos as int, cur.depth as nat, old(out)@)
                == common_end(cur.buf@, strs, cur.pos as int, cur.depth as nat, out@),
        decreases cur.buf@.len() - cur.pos,
    {
        let ghost at = cur.pos as int;
        let ghost before = out@;
        let kv_type = cur.u8()?;
        if kv_type == 8 {
            return Some(());
        }
        let key = cur.key(strings)?;
        if kv_type == 1 && str_eq(key, "controller_support") {
            out.controller_support = cur.cstr()?;
            proof {
                lemma_zero_from(cur.buf@, at + 5);
            }
        } else if kv_type == 2 && str_eq(key, "mastersubs_granting_app") {
            let v = cur.i32()?;
            let ghost raw = u32_le(cur.buf@, at + 5);
            assert((raw as i32) as u32 == raw) by (bit_vector);
            out.mastersub_appid = v as u32;
        } else if kv_type == 0 && str_eq(key, "store_tags") {
            read_int_values(cur, &mut out.store_tags)?;
            proof {
                lemma_int_values_end(cur.buf@, at + 5, cur.depth as nat, before.store_tags);
            }
        } else if kv_type == 0 && str_eq(key, "category") {
            read_category_keys(cur, strings, &mut out.categories)?;
            proof {
                lemma_categories_end(cur.buf@, strs, at + 5, cur.depth as nat, before.categories);
            }
        } else if kv_type == 0 && str_eq(key, "supported_languages") {
            read_supported_languages(cur, strings, &mut out.languages)?;
            proof {
                lemma_languages_end(cur.buf@, strs, at + 5, cur.depth as nat, before.languages);
            }
        } else if kv_type == 0 && str_eq(key, "steam_deck_compatibility") {
            read_deck_compat(cur, strings, out)?;
            proof {
                lemma_deck_end(cur.buf@, strs, at + 5, cur.depth as nat, before);
            }
        } else {
            cur.skip_value(kv_type)?;
            proof {
                lemma_skip_value_end(cur.buf@, at + 5, kv_type, cur.depth as nat);
            }
        }
    }
}

/// Steam nests `common` under an `appinfo` root on some apps, top level on others.
fn read_app(cur: &mut Cursor, strings: &[String], out: &mut AppInfo, nested: bool) -> (r: Option<()>)
    requires
        old(cur).depth <= MAX_DEPTH,
        old(cur).pos <= old(cur).buf@.len(),
    ensures
        final(cur).buf == old(cur).buf,
        match app_end(old(cur).buf@, table_text(strings@), old(cur).pos as int, old(cur).depth as nat, nested, old(out)@) {
            Some((q, info)) => r is Some && final(cur).pos == q && final(cur).depth == old(cur).depth
                && final(out)@ == info,
            None => r is None,
        },
    decreases old(cur).buf@.len() - old(cur).pos,
{
    let ghost strs = table_text(strings@);
    loop
        invariant
            cur.buf == old(cur).buf,
            cur.depth == old(cur).depth,
            cur.depth <= MAX_DEPTH,
            old(cur).pos <= cur.pos <= cur.buf@.len(),
            strs == table_text(strings@),
            app_end(cur.buf@, strs, old(cur).pos as int, cur.depth as nat, nested, old(out)@)
                == app_end(cur.buf@, strs, cur.pos as int, cur.depth as nat, nested, out@),
        decreases cur.buf@.len() - cur.pos,
    {
        let ghost at = cur.pos as int;
        let ghost before = out@;
        let kv_type = cur.u8()?;
        if kv_type == 8 {
            return Some(());
        }
        let key = cur.key(strings)?;
        if kv_type != 0 {
            cur.skip_value(kv_type)?;
            proof {
                lemma_skip_value_end(cur.buf@, at + 5, kv_type, cur.depth as nat);
            }
            continue;
        }
        if str_eq(key, "common") {
            read_common(cur, strings, out)?;
            proof {
                lemma_common_end(cur.buf@, strs, at + 5, cur.depth as nat, before);
            }
        } else if str_eq(key, "appinfo") && !nested {
            read_app(cur, strings, out, true)?;
            proof {
                lemma_app_end(cur.buf@, strs, at + 5, cur.depth as nat, true, before);
            }
        } else {
            cur.skip_block()?;
            proof {
                lemma_skip_block_end(cur.buf@, at + 5, cur.depth as nat);
            }
        }
    }
}

/// `n` NUL-terminated strings from `pos` on.
pub open spec fn strings_from(buf: Seq<u8>, pos: int, n: nat) -> Option<Seq<Seq<char>>>
    decreases n,
{
    if n == 0 {
        Some(seq![])
    } else {
        match cstr_at(buf, pos) {
            Some((q, text)) => match strings_from(buf, q, (n - 1) as nat) {
                Some(rest) => Some(seq![text] + rest),
                None => None,
            },
            None => None,
        }
    }
}

/// The string table at `offset`: a 32-bit count, then that many strings. A
/// count larger than the bytes left could hold is refused.
pub open spec fn string_table(buf: Seq<u8>, offset: i64) -> Option<Seq<Seq<char>>> {
    if offset < 0 || offset > usize::MAX || offset + 4 > buf.len() {
        None
    } else {
        let count = u32_le(buf, offset as int);
        if count > buf.len() - (offset + 4) {
            None
        } else {
            strings_from(buf, offset + 4, count as nat)
        }
    }
}

fn read_string_table(buf: &[u8], offset: i64) -> (r: Option<Vec<String>>)
    ensures
        match string_table(buf@, offset) {
            Some(strs) => r is Some && table_text(r.unwrap()@) == strs,
            None => r is None,
        },
{
    if offset < 0 || offset as u64 > usize::MAX as u64 {
        return None;
    }
    let mut cur = Cursor::new(buf, offset as usize);
    // From a file-supplied offset, so it never sizes an allocation: a corrupt one
    // would abort the process uncatchably.
    let count = cur.u32()? as usize;
    if count > buf.len() - cur.pos {
        return None;
    }
    let mut out: Vec<String> = Vec::with_capacity(if count < 16 * 1024 { count } else { 16 * 1024 });
    let mut i: usize = 0;
    let ghost start = cur.pos as int;
    while i < count
        invariant
            cur.buf == buf,
            i <= count,
            out@.len() == i,
            string_table(buf@, offset) == strings_from(buf@, start, count as nat),
            strings_from(buf@, start, count as nat) == match strings_from(buf@, cur.pos as int, (count - i) as nat) {
                Some(rest) => Some(table_text(out@) + rest),
                None => None,
            },
        decreases count - i,
    {
        let ghost at = cur.pos as int;
        let text = match cur.cstr() {
            Some(text) => text,
            None => {
                assert(strings_from(buf@, at, (count - i) as nat) is None);
                return None;
            },
        };
        proof {
            if let Some(rest) = strings_from(buf@, cur.pos as int, (count - i - 1) as nat) {
                assert(table_text(out@.push(text)) =~= table_text(out@) + seq![text@]);
                assert(table_text(out@) + (seq![text@] + rest) =~= table_text(out@.push(text)) + rest);
            }
        }
        out.push(text);
        i = i + 1;
    }
    assert(table_text(out@) + seq![] =~= table_text(out@));
    Some(out)
}

/// The apps of the blobs from `pos` on that `wanted` names and whose blob
/// reads whole, added to `acc`; a later blob of the same app replaces an
/// earlier one. The walk stops at an app id of 0, or where a header or a
/// blob would run past the end.
pub open spec fn apps_from(buf: Seq<u8>, strs: Seq<Seq<char>>, wanted: Set<u32>, pos: int, acc: Map<u32, AppInfoView>) -> Map<u32, AppInfoView>
    decreases buf.len() - pos,
{
    if pos < 0 || pos + 4 > buf.len() {
        acc
    } else if u32_le(buf, pos) == 0 || pos + 8 > buf.len() {
        acc
    } else {
        let app_id = u32_le(buf, pos);
        let next = pos + 8 + u32_le(buf, pos + 4);
        if next > buf.len() {
            acc
        } else {
            let with_app = if wanted.contains(app_id) {
                match app_end(buf.subrange(0, next), strs, pos + 8 + APP_HEADER_LEN, 0, false, blank_info()) {
                    Some((_, info)) => acc.insert(app_id, info),
                    None => acc,
                }
            } else {
                acc
            };
            apps_from(buf, strs, wanted, next, with_app)
        }
    }
}

/// What reading `appinfo.vdf` gives: the apps `wanted` names, keyed by app
/// id; an error where the header, its magic or the string table is wrong.
pub open spec fn app_infos(buf: Seq<u8>, wanted: Set<u32>) -> Result<Map<u32, AppInfoView>, SamError> {
    if buf.len() < 8 || u32_le(buf, 0) != MAGIC_V29 || buf.len() < 16 {
        Err(SamError::UnknownError)
    } else {
        match string_table(buf, u64_le(buf, 8) as i64) {
            None => Err(SamError::UnknownError),
            Some(strs) => Ok(apps_from(buf, strs, wanted, 16, Map::empty())),
        }
    }
}

/// The contents of the apps of a map read from `appinfo.vdf`.
pub open spec fn infos_view(m: Map<u32, AppInfo>) -> Map<u32, AppInfoView> {
    m.map_values(|info: AppInfo| info@)
}

/// Walks the app blobs from `start` on with the string table already read,
/// keeping the apps that `wanted` names and whose blob reads whole.
pub fn read_apps(buf: &[u8], strings: &Vec<String>, wanted: &HashSet<u32>, start: usize) -> (out: HashMap<u32, AppInfo>)
    ensures
        infos_view(out@) == apps_from(buf@, table_text(strings@), wanted@, start as int, Map::empty()),
{
    let ghost strs = table_text(strings@);
    let mut out: HashMap<u32, AppInfo> = HashMap::with_capacity(wanted.len());
    assert(infos_view(out@) =~= Map::empty());
    if start > buf.len() {
        return out;
    }
    let mut pos = start;
    loop
        invariant
            pos <= buf@.len(),
            strs == table_text(strings@),
            apps_from(buf@, strs, wanted@, start as int, Map::empty()) == apps_from(buf@, strs, wanted@, pos as int, infos_view(out@)),
        ensures
            apps_from(buf@, strs, wanted@, start as int, Map::empty()) == infos_view(out@),
        decreases buf@.len() - pos,
    {
        let len = buf.len();
        let mut header = Cursor::new(buf, pos);
        let app_id = match header.u32() {
            Some(id) => id,
            None => break,
        };
        if app_id == 0 {
            break;
        }
        let size = match header.u32() {
            Some(size) => size,
            None => break,
        };
        let next = match pos.checked_add(8) {
            Some(p) => match p.checked_add(size as usize) {
                Some(next) => next,
                None => break,
            },
            None => break,
        };
        if next > len {
            break;
        }
        if wanted.contains(&app_id) {
            let mut info = AppInfo::default();
            let ghost body_bytes = buf@.subrange(0, next as int);
            // A blob shorter than its header has no entries to read: the
            // reading would fail at once.
            if size as usize >= APP_HEADER_LEN {
                let mut body = Cursor::new(vstd::slice::slice_subrange(buf, 0, next), pos + 8 + APP_HEADER_LEN);
                if read_app(&mut body, strings.as_slice(), &mut info, false).is_some() {
                    let ghost before = out@;
                    out.insert(app_id, info);
                    assert(infos_view(out@) =~= infos_view(before).insert(app_id, info@));
                }
            }
        }
        pos = next;
    }
    out
}

/// Reads the contents of `appinfo.vdf`, keeping the apps that `wanted` names.
pub fn read_from_bytes(buf: &[u8], wanted: &HashSet<u32>) -> (r: Result<HashMap<u32, AppInfo>, SamError>)
    ensures
        match app_infos(buf@, wanted@) {
            Ok(m) => r is Ok && infos_view(r.unwrap()@) == m,
            Err(e) => r is Err && r == Err::<HashMap<u32, AppInfo>, SamError>(e),
        },
{
    let mut head = Cursor::new(buf, 0);
    let magic = match head.u32() {
        Some(m) => m,
        None => return Err(SamError::UnknownError),
    };
    if head.u32().is_none() {
        return Err(SamError::UnknownError);
    }
    if magic != MAGIC_V29 {
        return Err(SamError::UnknownError);
    }
    let table_offset = match head.i64() {
        Some(offset) => offset,
        None => return Err(SamError::UnknownError),
    };
    let strings = match read_string_table(buf, table_offset) {
        Some(strings) => strings,
        None => return Err(SamError::UnknownError),
    };
    Ok(read_apps(buf, &strings, wanted, head.pos))
}

proof fn lemma_apps_from_wanted(buf: Seq<u8>, strs: Seq<Seq<char>>, wanted: Set<u32>, pos: int, acc: Map<u32, AppInfoView>)
    requires
        acc.dom().subset_of(wanted),
    ensures
        apps_from(buf, strs, wanted, pos, acc).dom().subset_of(wanted),
    decreases buf.len() - pos,
{
    if !(pos < 0 || pos + 4 > buf.len()) && !(u32_le(buf, pos) == 0 || pos + 8 > buf.len()) {
        let app_id = u32_le(buf, pos);
        let next = pos + 8 + u32_le(buf, pos + 4);
        if next <= buf.len() {
            let with_app = if wanted.contains(app_id) {
                match app_end(buf.subrange(0, next), strs, pos + 8 + APP_HEADER_LEN, 0, false, blank_info()) {
                    Some((_, info)) => acc.insert(app_id, info),
                    None => acc,
                }
            } else {
                acc
            };
            lemma_apps_from_wanted(buf, strs, wanted, next, with_app);
        }
    }
}

/// `b1` stands inside `b2` from `n` on.
pub open spec fn embeds(b1: Seq<u8>, b2: Seq<u8>, n: int) -> bool {
    &&& 0 <= n
    &&& n + b1.len() <= b2.len()
    &&& forall|i: int| 0 <= i < b1.len() ==> #[trigger] b2[n + i] == b1[i]
}

proof fn lemma_shift_u32(b1: Seq<u8>, b2: Seq<u8>, n: int, p: int)
    requires
        embeds(b1, b2, n),
        0 <= p,
        p + 4 <= b1.len(),
    ensures
        u32_le(b2, n + p) == u32_le(b1, p),
{
    assert(b2[n + p] == b1[p]);
    assert(b2[n + (p + 1)] == b1[p + 1]);
    assert(b2[n + (p + 2)] == b1[p + 2]);
    assert(b2[n + (p + 3)] == b1[p + 3]);
}

proof fn lemma_shift_zero(b1: Seq<u8>, b2: Seq<u8>, n: int, i: int)
    requires
        embeds(b1, b2, n),
    ensures
        zero_from(b1, i) matches Some(z) ==> zero_from(b2, n + i) == Some(n + z),
    decreases b1.len() - i,
{
    if 0 <= i < b1.len() {
        assert(b2[n + i] == b1[i]);
        if b1[i] != 0 {
            lemma_shift_zero(b1, b2, n, i + 1);
        }
    }
}

proof fn lemma_shift_cstr(b1: Seq<u8>, b2: Seq<u8>, n: int, p: int)
    requires
        embeds(b1, b2, n),
    ensures
        cstr_at(b1, p) matches Some((q, text)) ==> cstr_at(b2, n + p) == Some((n + q, text)),
{
    lemma_shift_zero(b1, b2, n, p);
    lemma_zero_from(b1, p);
    if let Some(z) = zero_from(b1, p) {
        assert(b2.subrange(n + p, n + z) =~= b1.subrange(p, z)) by {
            assert forall|j: int| 0 <= j < z - p implies b2.subrange(n + p, n + z)[j] == b1.subrange(p, z)[j] by {
                assert(b2[n + (p + j)] == b1[p + j]);
            }
        }
    }
}

proof fn lemma_shift_key(b1: Seq<u8>, b2: Seq<u8>, n: int, p: int, strs: Seq<Seq<char>>)
    requires
        embeds(b1, b2, n),
        0 <= p,
    ensures
        key_at(b1, p, strs) matches Some(k) ==> key_at(b2, n + p, strs) == Some(k),
{
    if p + 4 <= b1.len() {
        lemma_shift_u32(b1, b2, n, p);
    }
}

proof fn lemma_shift_skip_value(b1: Seq<u8>, b2: Seq<u8>, n: int, pos: int, t: u8, depth: nat)
    requires
        embeds(b1, b2, n),
        0 <= pos,
    ensures
        skip_value_end(b1, pos, t, depth) matches Some(e) ==> skip_value_end(b2, n + pos, t, depth) == Some(n + e),
    decreases b1.len() - pos, 2nat,
{
    if t == 0 {
        lemma_shift_skip_block(b1, b2, n, pos, depth);
    } else {
        lemma_shift_cstr(b1, b2, n, pos);
    }
}

proof fn lemma_shift_skip_block(b1: Seq<u8>, b2: Seq<u8>, n: int, pos: int, depth: nat)
    requires
        embeds(b1, b2, n),
        0 <= pos,
    ensures
        skip_block_end(b1, pos, depth) matches Some(e) ==> skip_block_end(b2, n + pos, depth) == Some(n + e),
    decreases b1.len() - pos, 1nat,
{
    if depth + 1 <= MAX_DEPTH {
        lemma_shift_skip_entries(b1, b2, n, pos, depth + 1);
    }
}

proof fn lemma_shift_skip_entries(b1: Seq<u8>, b2: Seq<u8>, n: int, pos: int, depth: nat)
    requires
        embeds(b1, b2, n),
        0 <= pos,
    ensures
        skip_entries_end(b1, pos, depth) matches Some(e) ==> skip_entries_end(b2, n + pos, depth) == Some(n + e),
    decreases b1.len() - pos, 0nat,
{
    if pos < b1.len() {
        assert(b2[n + pos] == b1[pos]);
        if b1[pos] != 8 && pos + 5 <= b1.len() {
            lemma_shift_skip_value(b1, b2, n, pos + 5, b1[pos], depth);
            if let Some(next) = skip_value_end(b1, pos + 5, b1[pos], depth) {
                if pos < next <= b1.len() {
                    lemma_shift_skip_entries(b1, b2, n, next, depth);
                }
            }
        }
    }
}

proof fn lemma_shift_int_values(b1: Seq<u8>, b2: Seq<u8>, n: int, pos: int, depth: nat, set: Set<u32>)
    requires
        embeds(b1, b2, n),
        0 <= pos,
    ensures
        int_values_end(b1, pos, depth, set) matches Some((q, s)) ==> int_values_end(b2, n + pos, depth, set) == Some((n + q, s)),
    decreases b1.len() - pos,
{
    if pos < b1.len() {
        assert(b2[n + pos] == b1[pos]);
        if b1[pos] != 8 && pos + 5 <= b1.len() {
            let p = pos + 5;
            let t = b1[pos];
            if t == 2 {
                if p + 4 <= b1.len() {
                    lemma_shift_u32(b1, b2, n, p);
                    lemma_shift_int_values(b1, b2, n, p + 4, depth, set.insert(u32_le(b1, p)));
                }
            } else if t == 7 {
                if p + 8 <= b1.len() {
                    lemma_shift_u32(b1, b2, n, p);
                    lemma_shift_int_values(b1, b2, n, p + 8, depth, set.insert(u32_le(b1, p)));
                }
            } else {
                lemma_shift_skip_value(b1, b2, n, p, t, depth);
                if let Some(q) = skip_value_end(b1, p, t, depth) {
                    if pos < q <= b1.len() {
                        lemma_shift_int_values(b1, b2, n, q, depth, set);
                    }
                }
            }
        }
    }
}

proof fn lemma_shift_language_entry(b1: Seq<u8>, b2: Seq<u8>, n: int, strs: Seq<Seq<char>>, pos: int, depth: nat, supported: bool)
    requires
        embeds(b1, b2, n),
        0 <= pos,
    ensures
        language_entry_end(b1, strs, pos, depth, supported) matches Some((q, s))
            ==> language_entry_end(b2, strs, n + pos, depth, supported) == Some((n + q, s)),
    decreases b1.len() - pos,
{
    if pos < b1.len() {
        assert(b2[n + pos] == b1[pos]);
        lemma_shift_key(b1, b2, n, pos + 1, strs);
        if b1[pos] != 8 {
            if let Some(key) = key_at(b1, pos + 1, strs) {
                let p = pos + 5;
                let t = b1[pos];
                lemma_shift_cstr(b1, b2, n, p);
                lemma_shift_skip_value(b1, b2, n, p, t, depth);
                if t == 1 && key == "supported"@ {
                    if let Some((q, text)) = cstr_at(b1, p) {
                        if pos < q <= b1.len() {
                            lemma_shift_language_entry(b1, b2, n, strs, q, depth, text == "true"@);
                        }
                    }
                } else if t == 2 && key == "supported"@ {
                    if p + 4 <= b1.len() {
                        lemma_shift_u32(b1, b2, n, p);
                        lemma_shift_language_entry(b1, b2, n, strs, p + 4, depth, u32_le(b1, p) != 0);
                    }
                } else if let Some(q) = skip_value_end(b1, p, t, depth) {
                    if pos < q <= b1.len() {
                        lemma_shift_language_entry(b1, b2, n, strs, q, depth, supported);
                    }
                }
            }
        }
    }
}

proof fn lemma_shift_languages(b1: Seq<u8>, b2: Seq<u8>, n: int, strs: Seq<Seq<char>>, pos: int, depth: nat, set: Set<u32>)
    requires
        embeds(b1, b2, n),
        0 <= pos,
    ensures
        languages_end(b1, strs, pos, depth, set) matches Some((q, s))
            ==> languages_end(b2, strs, n + pos, depth, set) == Some((n + q, s)),
    decreases b1.len() - pos,
{
    if pos < b1.len() {
        assert(b2[n + pos] == b1[pos]);
        lemma_shift_key(b1, b2, n, pos + 1, strs);
        if b1[pos] != 8 {
            if let Some(key) = key_at(b1, pos + 1, strs) {
                let p = pos + 5;
                let t = b1[pos];
                if t != 0 {
                    lemma_shift_skip_value(b1, b2, n, p, t, depth);
                    if let Some(q) = skip_value_end(b1, p, t, depth) {
                        if pos < q <= b1.len() {
                            lemma_shift_languages(b1, b2, n, strs, q, depth, set);
                        }
                    }
                } else {
                    lemma_shift_language_entry(b1, b2, n, strs, p, depth, false);
                    if let Some((q, supported)) = language_entry_end(b1, strs, p, depth, false) {
                        if pos < q <= b1.len() {
                            lemma_shift_languages(
                                b1,
                                b2,
                                n,
                                strs,
                                q,
                                depth,
                                if supported && language_index_of(key) is Some {
                                    set.insert(language_index_of(key).unwrap())
                                } else {
                                    set
                                },
                            );
                        }
                    }
                }
            }
        }
    }
}

proof fn lemma_shift_categories(b1: Seq<u8>, b2: Seq<u8>, n: int, strs: Seq<Seq<char>>, pos: int, depth: nat, set: Set<u32>)
    requires
        embeds(b1, b2, n),
        0 <= pos,
    ensures
        categories_end(b1, strs, pos, depth, set) matches Some((q, s))
            ==> categories_end(b2, strs, n + pos, depth, set) == Some((n + q, s)),
    decreases b1.len() - pos,
{
    if pos < b1.len() {
        assert(b2[n + pos] == b1[pos]);
        lemma_shift_key(b1, b2, n, pos + 1, strs);
        if b1[pos] != 8 {
            if let Some(key) = key_at(b1, pos + 1, strs) {
                let next_set = match category_id(key) {
                    Some(id) => set.insert(id),
                    None => set,
                };
                lemma_shift_skip_value(b1, b2, n, pos + 5, b1[pos], depth);
                if let Some(q) = skip_value_end(b1, pos + 5, b1[pos], depth) {
                    if pos < q <= b1.len() {
                        lemma_shift_categories(b1, b2, n, strs, q, depth, next_set);
                    }
                }
            }
        }
    }
}

proof fn lemma_shift_deck(b1: Seq<u8>, b2: Seq<u8>, n: int, strs: Seq<Seq<char>>, pos: int, depth: nat, info: AppInfoView)
    requires
        embeds(b1, b2, n),
        0 <= pos,
    ensures
        deck_end(b1, strs, pos, depth, info) matches Some((q, out))
            ==> deck_end(b2, strs, n + pos, depth, info) == Some((n + q, out)),
    decreases b1.len() - pos,
{
    if pos < b1.len() {
        assert(b2[n + pos] == b1[pos]);
        lemma_shift_key(b1, b2, n, pos + 1, strs);
        if b1[pos] != 8 {
            if let Some(key) = key_at(b1, pos + 1, strs) {
                let p = pos + 5;
                let t = b1[pos];
                if t == 2 && is_compat_key(key) {
                    if p + 4 <= b1.len() {
                        lemma_shift_u32(b1, b2, n, p);
                        lemma_shift_deck(b1, b2, n, strs, p + 4, depth, with_compat(info, key, u32_le(b1, p) as i32));
                    }
                } else {
                    lemma_shift_skip_value(b1, b2, n, p, t, depth);
                    if let Some(q) = skip_value_end(b1, p, t, depth) {
                        if pos < q <= b1.len() {
                            lemma_shift_deck(b1, b2, n, strs, q, depth, info);
                        }
                    }
                }
            }
        }
    }
}

#[verifier::spinoff_prover]
#[verifier::rlimit(50)]
proof fn lemma_shift_common(b1: Seq<u8>, b2: Seq<u8>, n: int, strs: Seq<Seq<char>>, pos: int, depth: nat, info: AppInfoView)
    requires
        embeds(b1, b2, n),
        0 <= pos,
    ensures
        common_end(b1, strs, pos, depth, info) matches Some((q, out))
            ==> common_end(b2, strs, n + pos, depth, info) == Some((n + q, out)),
    decreases b1.len() - pos,
{
    if pos < b1.len() {
        assert(b2[n + pos] == b1[pos]);
        lemma_shift_key(b1, b2, n, pos + 1, strs);
        if b1[pos] != 8 {
            if let Some(key) = key_at(b1, pos + 1, strs) {
                let p = pos + 5;
                let t = b1[pos];
                lemma_shift_cstr(b1, b2, n, p);
                if p + 4 <= b1.len() {
                    lemma_shift_u32(b1, b2, n, p);
                }
                lemma_shift_int_values(b1, b2, n, p, depth, info.store_tags);
                lemma_shift_categories(b1, b2, n, strs, p, depth, info.categories);
                lemma_shift_languages(b1, b2, n, strs, p, depth, info.languages);
                lemma_shift_deck(b1, b2, n, strs, p, depth, info);
                lemma_shift_skip_value(b1, b2, n, p, t, depth);
                let step: Option<(int, AppInfoView)> = if t == 1 && key == "controller_support"@ {
                    match cstr_at(b1, p) {
                        Some((q, text)) => Some((q, AppInfoView { controller_support: text, ..info })),
                        None => None,
                    }
                } else if t == 2 && key == "mastersubs_granting_app"@ {
                    if p + 4 <= b1.len() {
                        Some((p + 4, AppInfoView { mastersub_appid: u32_le(b1, p), ..info }))
                    } else {
                        None
                    }
                } else if t == 0 && key == "store_tags"@ {
                    match int_values_end(b1, p, depth, info.store_tags) {
                        Some((q, tags)) => Some((q, AppInfoView { store_tags: tags, ..info })),
                        None => None,
                    }
                } else if t == 0 && key == "category"@ {
                    match categories_end(b1, strs, p, depth, info.categories) {
                        Some((q, ids)) => Some((q, AppInfoView { categories: ids, ..info })),
                        None => None,
                    }
                } else if t == 0 && key == "supported_languages"@ {
                    match languages_end(b1, strs, p, depth, info.languages) {
                        Some((q, langs)) => Some((q, AppInfoView { languages: langs, ..info })),
                        None => None,
                    }
                } else if t == 0 && key == "steam_deck_compatibility"@ {
                    deck_end(b1, strs, p, depth, info)
                } else {
                    match skip_value_end(b1, p, t, depth) {
                        Some(q) => Some((q, info)),
                        None => None,
                    }
                };
                if let Some((q, next)) = step {
                    if pos < q <= b1.len() {
                        lemma_shift_common(b1, b2, n, strs, q, depth, next);
                    }
                }
            }
        }
    }
}

/// A `common` block reads alike at the top level of an app's blob and under
/// an `appinfo` root: for a block `c` that reads whole, the blob `c`, end and
/// the blob `appinfo` { `c` }, end give the same app.
pub proof fn common_reads_alike_under_an_appinfo_root(
    c: Seq<u8>,
    key: Seq<u8>,
    strs: Seq<Seq<char>>,
    info: AppInfoView,
    out: AppInfoView,
)
    requires
        key.len() == 4,
        c.len() > 0,
        c[0] == 0,
        key_at(c + seq![8u8], 1, strs) == Some("common"@),
        key_at(seq![0u8] + key + c + seq![8u8, 8u8], 1, strs) == Some("appinfo"@),
        common_end(c + seq![8u8], strs, 5, 0, info) == Some((c.len() as int, out)),
    ensures
        app_end(c + seq![8u8], strs, 0, 0, false, info) == Some((c.len() + 1int, out)),
        app_end(seq![0u8] + key + c + seq![8u8, 8u8], strs, 0, 0, false, info) == Some((c.len() + 7int, out)),
{
    let b1 = c + seq![8u8];
    let b2 = seq![0u8] + key + c + seq![8u8, 8u8];
    reveal_strlit("common");
    reveal_strlit("appinfo");
    assert("common"@ != "appinfo"@) by {
        assert("common"@.len() != "appinfo"@.len());
    }
    assert(embeds(b1, b2, 5)) by {
        assert forall|i: int| 0 <= i < b1.len() implies #[trigger] b2[5 + i] == b1[i] by {
            if i < c.len() {
                assert(b2[5 + i] == c[i]);
            }
        }
    }
    assert(b1[c.len() as int] == 8);
    assert(app_end(b1, strs, c.len() as int, 0, false, out) == Some((c.len() + 1int, out)));
    lemma_shift_key(b1, b2, 5, 1, strs);
    lemma_shift_common(b1, b2, 5, strs, 5, 0, info);
    assert(b2[5] == 0);
    assert(b2[0] == 0);
    assert(b2[c.len() + 5int] == 8);
    assert(b2[c.len() + 6int] == 8);
    assert(app_end(b2, strs, c.len() + 5int, 0, true, out) == Some((c.len() + 6int, out)));
    assert(app_end(b2, strs, 5, 0, true, info) == Some((c.len() + 6int, out)));
    assert(app_end(b2, strs, c.len() + 6int, 0, false, out) == Some((c.len() + 7int, out)));
}

/// Under an `appinfo` root, a further `appinfo` block is skipped whole, not
/// read: the reading goes on after it with the app unchanged.
pub proof fn a_nested_appinfo_block_is_skipped(buf: Seq<u8>, strs: Seq<Seq<char>>, pos: int, depth: nat, info: AppInfoView)
    requires
        0 <= pos < buf.len(),
        buf[pos] == 0,
        key_at(buf, pos + 1, strs) == Some("appinfo"@),
    ensures
        app_end(buf, strs, pos, depth, true, info) == match skip_block_end(buf, pos + 5, depth) {
            Some(q) => if pos < q <= buf.len() { app_end(buf, strs, q, depth, true, info) } else { None },
            None => None,
        },
{
    reveal_strlit("common");
    reveal_strlit("appinfo");
    assert("common"@ != "appinfo"@) by {
        assert("common"@.len() != "appinfo"@.len());
    }
}

/// Every index in `langs` is one of Steam's 32 languages.
pub open spec fn languages_known(langs: Set<u32>) -> bool {
    forall|i: u32| #[trigger] langs.contains(i) ==> i < 32
}

proof fn lemma_language_index_below(name: Seq<char>, i: int)
    ensures
        language_index_from(name, i) matches Some(k) ==> k < 32,
    decreases 32 - i,
{
    if 0 <= i < 32 && language_name(i) != name {
        lemma_language_index_below(name, i + 1);
    }
}

proof fn lemma_languages_end_known(buf: Seq<u8>, strs: Seq<Seq<char>>, pos: int, depth: nat, set: Set<u32>)
    requires
        languages_known(set),
    ensures
        languages_end(buf, strs, pos, depth, set) matches Some((_, out)) ==> languages_known(out),
    decreases buf.len() - pos,
{
    if 0 <= pos < buf.len() && buf[pos] != 8 {
        if let Some(key) = key_at(buf, pos + 1, strs) {
            let p = pos + 5;
            let t = buf[pos];
            if t != 0 {
                if let Some(q) = skip_value_end(buf, p, t, depth) {
                    if pos < q <= buf.len() {
                        lemma_languages_end_known(buf, strs, q, depth, set);
                    }
                }
            } else if let Some((q, supported)) = language_entry_end(buf, strs, p, depth, false) {
                if pos < q <= buf.len() {
                    let name = if key == "korean"@ { "koreana"@ } else { key };
                    lemma_language_index_below(name, 0);
                    let next = if supported && language_index_of(key) is Some {
                        set.insert(language_index_of(key).unwrap())
                    } else {
                        set
                    };
                    lemma_languages_end_known(buf, strs, q, depth, next);
                }
            }
        }
    }
}

proof fn lemma_deck_end_languages(buf: Seq<u8>, strs: Seq<Seq<char>>, pos: int, depth: nat, info: AppInfoView)
    ensures
        deck_end(buf, strs, pos, depth, info) matches Some((_, out)) ==> out.languages == info.languages,
    decreases buf.len() - pos,
{
    if 0 <= pos < buf.len() && buf[pos] != 8 {
        if let Some(key) = key_at(buf, pos + 1, strs) {
            let p = pos + 5;
            let t = buf[pos];
            if t == 2 && is_compat_key(key) {
                if p + 4 <= buf.len() {
                    lemma_deck_end_languages(buf, strs, p + 4, depth, with_compat(info, key, u32_le(buf, p) as i32));
                }
            } else if let Some(q) = skip_value_end(buf, p, t, depth) {
                if pos < q <= buf.len() {
                    lemma_deck_end_languages(buf, strs, q, depth, info);
                }
            }
        }
    }
}

#[verifier::spinoff_prover]
proof fn lemma_common_end_known(buf: Seq<u8>, strs: Seq<Seq<char>>, pos: int, depth: nat, info: AppInfoView)
    requires
        languages_known(info.languages),
    ensures
        common_end(buf, strs, pos, depth, info) matches Some((_, out)) ==> languages_known(out.languages),
    decreases buf.len() - pos,
{
    if 0 <= pos < buf.len() && buf[pos] != 8 {
        if let Some(key) = key_at(buf, pos + 1, strs) {
            let p = pos + 5;
            let t = buf[pos];
            lemma_languages_end_known(buf, strs, p, depth, info.languages);
            lemma_deck_end_languages(buf, strs, p, depth, info);
            let step: Option<(int, AppInfoView)> = if t == 1 && key == "controller_support"@ {
                match cstr_at(buf, p) {
                    Some((q, text)) => Some((q, AppInfoView { controller_support: text, ..info })),
                    None => None,
                }
            } else if t == 2 && key == "mastersubs_granting_app"@ {
                if p + 4 <= buf.len() {
                    Some((p + 4, AppInfoView { mastersub_appid: u32_le(buf, p), ..info }))
                } else {
                    None
                }
            } else if t == 0 && key == "store_tags"@ {
                match int_values_end(buf, p, depth, info.store_tags) {
                    Some((q, tags)) => Some((q, AppInfoView { store_tags: tags, ..info })),
                    None => None,
                }
            } else if t == 0 && key == "category"@ {
                match categories_end(buf, strs, p, depth, info.categories) {
                    Some((q, ids)) => Some((q, AppInfoView { categories: ids, ..info })),
                    None => None,
                }
            } else if t == 0 && key == "supported_languages"@ {
                match languages_end(buf, strs, p, depth, info.languages) {
                    Some((q, langs)) => Some((q, AppInfoView { languages: langs, ..info })),
                    None => None,
                }
            } else if t == 0 && key == "steam_deck_compatibility"@ {
                deck_end(buf, strs, p, depth, info)
            } else {
                match skip_value_end(buf, p, t, depth) {
                    Some(q) => Some((q, info)),
                    None => None,
                }
            };
            if let Some((q, next)) = step {
                if pos < q <= buf.len() {
                    lemma_common_end_known(buf, strs, q, depth, next);
                }
            }
        }
    }
}

#[verifier::spinoff_prover]
proof fn lemma_app_end_known(buf: Seq<u8>, strs: Seq<Seq<char>>, pos: int, depth: nat, nested: bool, info: AppInfoView)
    requires
        languages_known(info.languages),
    ensures
        app_end(buf, strs, pos, depth, nested, info) matches Some((_, out)) ==> languages_known(out.languages),
    decreases buf.len() - pos,
{
    if 0 <= pos < buf.len() && buf[pos] != 8 {
        if let Some(key) = key_at(buf, pos + 1, strs) {
            let p = pos + 5;
            let t = buf[pos];
            lemma_common_end_known(buf, strs, p, depth, info);
            if t == 0 && key == "appinfo"@ && !nested && p < buf.len() {
                lemma_app_end_known(buf, strs, p, depth, true, info);
            }
            let step: Option<(int, AppInfoView)> = if t != 0 {
                match skip_value_end(buf, p, t, depth) {
                    Some(q) => Some((q, info)),
                    None => None,
                }
            } else if key == "common"@ {
                common_end(buf, strs, p, depth, info)
            } else if key == "appinfo"@ && !nested {
                if p < buf.len() { app_end(buf, strs, p, depth, true, info) } else { None }
            } else {
                match skip_block_end(buf, p, depth) {
                    Some(q) => Some((q, info)),
                    None => None,
                }
            };
            if let Some((q, next)) = step {
                if pos < q <= buf.len() {
                    lemma_app_end_known(buf, strs, q, depth, nested, next);
                }
            }
        }
    }
}

proof fn lemma_apps_from_known(buf: Seq<u8>, strs: Seq<Seq<char>>, wanted: Set<u32>, pos: int, acc: Map<u32, AppInfoView>)
    requires
        forall|id: u32| #[trigger] acc.dom().contains(id) ==> languages_known(acc[id].languages),
    ensures
        forall|id: u32| #[trigger] apps_from(buf, strs, wanted, pos, acc).dom().contains(id)
            ==> languages_known(apps_from(buf, strs, wanted, pos, acc)[id].languages),
    decreases buf.len() - pos,
{
    if !(pos < 0 || pos + 4 > buf.len()) && !(u32_le(buf, pos) == 0 || pos + 8 > buf.len()) {
        let app_id = u32_le(buf, pos);
        let next = pos + 8 + u32_le(buf, pos + 4);
        if next <= buf.len() {
            let body = buf.subrange(0, next);
            assert(languages_known(blank_info().languages));
            lemma_app_end_known(body, strs, pos + 8 + APP_HEADER_LEN, 0, false, blank_info());
            let with_app = if wanted.contains(app_id) {
                match app_end(body, strs, pos + 8 + APP_HEADER_LEN, 0, false, blank_info()) {
                    Some((_, info)) => acc.insert(app_id, info),
                    None => acc,
                }
            } else {
                acc
            };
            assert forall|id: u32| #[trigger] with_app.dom().contains(id) implies languages_known(with_app[id].languages) by {
                if id != app_id {
                    assert(acc.dom().contains(id));
                }
            }
            lemma_apps_from_known(buf, strs, wanted, next, with_app);
            assert(apps_from(buf, strs, wanted, pos, acc) == apps_from(buf, strs, wanted, next, with_app));
        }
    }
}

/// Every language an app read from `appinfo.vdf` lists is one of Steam's 32:
/// a language filter past them can never match.
pub proof fn read_languages_are_known(buf: Seq<u8>, wanted: Set<u32>)
    ensures
        app_infos(buf, wanted) matches Ok(m) ==> forall|id: u32, i: u32|
            m.dom().contains(id) && #[trigger] m[id].languages.contains(i) ==> i < 32,
{
    if let Ok(m) = app_infos(buf, wanted) {
        let strs = string_table(buf, u64_le(buf, 8) as i64).unwrap();
        lemma_apps_from_known(buf, strs, wanted, 16, Map::empty());
        assert forall|id: u32, i: u32| m.dom().contains(id) && #[trigger] m[id].languages.contains(i) implies i < 32 by {
            assert(languages_known(m[id].languages));
        }
    }
}

/// Only the apps asked for are read: every app `appinfo.vdf` yields is one
/// of `wanted`.
pub proof fn read_keeps_only_wanted(buf: Seq<u8>, wanted: Set<u32>)
    ensures
        app_infos(buf, wanted) matches Ok(m) ==> m.dom().subset_of(wanted),
{
    if let Ok(m) = app_infos(buf, wanted) {
        let strs = string_table(buf, u64_le(buf, 8) as i64).unwrap();
        lemma_apps_from_wanted(buf, strs, wanted, 16, Map::empty());
    }
}

/// Skipping refuses a block nested deeper than [`MAX_DEPTH`] rather than
/// follow it.
pub proof fn skipping_stops_at_max_depth(buf: Seq<u8>, pos: int, depth: nat)
    requires
        depth >= MAX_DEPTH,
    ensures
        skip_block_end(buf, pos, depth) is None,
{
}

} // verus!
