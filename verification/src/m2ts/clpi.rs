//! Clip information files of Blu-ray discs.
//!
//! A stream file `BDMV/STREAM/00001.m2ts` has its clip information in
//! `BDMV/CLIPINF/00001.clpi`, which names the languages of its PGS streams and
//! its presentation times.
use vstd::prelude::*;
use crate::bytes::{be16, be32, copy_range, u16_be, u32_be};
use crate::lang::{language_normalized, lower_of, lowered, normalize_language};
use crate::text::{language_name, named_language, text_from_utf8};
use std::collections::HashMap;
use vstd::utf8::{decode_utf8, valid_utf8};

verus! {

/// The coding type of PGS streams.
pub const PGS_CODING_TYPE: u8 = 0x90;

/// The coding type of text subtitle streams.
pub const PGS_TEXT_CODING_TYPE: u8 = 0x91;

/// Where the position of the sequence information is.
pub const SEQUENCE_INFO_OFFSET_POS: usize = 8;

/// Where the position of the program information is.
pub const PROGRAM_INFO_OFFSET_POS: usize = 12;

/// The smallest size of a clip information file.
pub const MIN_CLPI_SIZE: usize = 40;

/// Whether data is that of a clip information file: large enough, and starting
/// with "HDMV".
pub open spec fn is_clpi(data: Seq<u8>) -> bool {
    data.len() >= 40 && data[0] == 0x48 && data[1] == 0x44 && data[2] == 0x4D && data[3] == 0x56
}

fn check_clpi(data: &[u8]) -> (r: bool)
    ensures
        r == is_clpi(data@),
{
    data.len() >= MIN_CLPI_SIZE && data[0] == 0x48 && data[1] == 0x44 && data[2] == 0x4D && data[3]
        == 0x56
}

/// The first presentation start and end times in sequence information, if it
/// has any.
pub open spec fn first_times(section: Seq<u8>) -> Option<(u64, u64)> {
    if section.len() < 26 || section[5] == 0 || section[10] == 0 {
        None
    } else {
        Some((be32(section, 18) as u64, be32(section, 22) as u64))
    }
}

/// The section that starts at the position found at `at`, if there is one.
pub open spec fn section_named_at(data: Seq<u8>, at: int) -> Option<Seq<u8>> {
    let offset = be32(data, at);
    if offset == 0 || offset >= data.len() {
        None
    } else {
        Some(data.skip(offset as int))
    }
}

/// The presentation start and end times of a clip, in 90 kHz ticks.
pub open spec fn clip_times(data: Seq<u8>) -> Option<(u64, u64)> {
    if !is_clpi(data) {
        None
    } else {
        match section_named_at(data, 8) {
            Some(section) => first_times(section),
            None => None,
        }
    }
}

/// Finds the section that starts at the position found at `at`.
fn named_section(data: &[u8], at: usize) -> (r: Option<&[u8]>)
    requires
        at + 4 <= data@.len(),
    ensures
        match (r, section_named_at(data@, at as int)) {
            (Some(section), Some(v)) => section@ == v,
            (None, None) => true,
            _ => false,
        },
{
    let offset: u32 = u32_be(data, at);
    if offset == 0 || offset as u64 >= data.len() as u64 {
        return None;
    }
    let section = vstd::slice::slice_subrange(data, offset as usize, data.len());
    assert(section@ =~= data@.skip(offset as int));
    Some(section)
}

/// Parses the presentation start and end times of a clip.
pub fn parse_sequence_info_times(data: &[u8]) -> (r: Option<(u64, u64)>)
    ensures
        r == clip_times(data@),
{
    if !check_clpi(data) {
        return None;
    }
    let section = match named_section(data, SEQUENCE_INFO_OFFSET_POS) {
        Some(section) => section,
        None => {
            return None;
        },
    };
    if section.len() < 26 || section[5] == 0 || section[10] == 0 {
        return None;
    }
    Some((u32_be(section, 18) as u64, u32_be(section, 22) as u64))
}

/// The language that the attributes of a PGS stream name, in its shortest form.
pub open spec fn clip_language(field: Seq<u8>) -> Option<Seq<char>> {
    if valid_utf8(field) {
        match named_language(decode_utf8(field)) {
            Some(l) => Some(language_normalized(l)),
            None => None,
        }
    } else {
        None
    }
}

/// The languages with that of a stream whose attributes of `n` bytes are at
/// `pos`, if it is a PGS stream that names one. The first one of a stream
/// stays.
pub open spec fn with_stream(
    section: Seq<u8>,
    pos: int,
    n: int,
    pid: u16,
    map: Map<u16, Seq<char>>,
) -> Map<u16, Seq<char>> {
    if (section[pos] == PGS_CODING_TYPE || section[pos] == PGS_TEXT_CODING_TYPE) && n >= 4 {
        match clip_language(section.subrange(pos + 1, pos + 4)) {
            Some(l) => if map.contains_key(pid) {
                map
            } else {
                map.insert(pid, l)
            },
            None => map,
        }
    } else {
        map
    }
}

/// The languages with those of the `n` streams at `pos`, and the position
/// behind them, if they are all there.
pub open spec fn clip_streams_at(
    section: Seq<u8>,
    pos: int,
    n: nat,
    map: Map<u16, Seq<char>>,
) -> Option<(Map<u16, Seq<char>>, int)>
    decreases n,
{
    if n == 0 {
        Some((map, pos))
    } else if pos + 3 > section.len() {
        None
    } else {
        let size = section[pos + 2] as int;
        if size == 0 {
            clip_streams_at(section, pos + 3, (n - 1) as nat, map)
        } else if pos + 3 + size > section.len() {
            None
        } else {
            clip_streams_at(
                section,
                pos + 3 + size,
                (n - 1) as nat,
                with_stream(section, pos + 3, size, be16(section, pos), map),
            )
        }
    }
}

/// The position behind the `n` groups at `pos`, as far as they are there.
pub open spec fn groups_end(section: Seq<u8>, pos: int, n: nat) -> int
    decreases n,
{
    if n == 0 || pos + 3 > section.len() {
        pos
    } else {
        groups_end(section, pos + 3 + be16(section, pos + 1), (n - 1) as nat)
    }
}

/// The languages with those of the `n` program sequences at `pos`, if they are
/// all there.
pub open spec fn sequences_at(
    section: Seq<u8>,
    pos: int,
    n: nat,
    map: Map<u16, Seq<char>>,
) -> Option<Map<u16, Seq<char>>>
    decreases n,
{
    if n == 0 {
        Some(map)
    } else if pos + 8 > section.len() {
        None
    } else {
        match clip_streams_at(section, pos + 8, section[pos + 6] as nat, map) {
            None => None,
            Some((more, next)) => sequences_at(
                section,
                groups_end(section, next, section[pos + 7] as nat),
                (n - 1) as nat,
                more,
            ),
        }
    }
}

/// The languages in program information whose number of sequences is at `at`.
/// Nothing if the number is not plausible, a sequence is not there as a whole,
/// or no language is named.
pub open spec fn program_languages(section: Seq<u8>, at: int) -> Option<Map<u16, Seq<char>>> {
    if at >= section.len() || section[at] == 0 || section[at] > 100 {
        None
    } else {
        match sequences_at(section, at + 1, section[at] as nat, Map::empty()) {
            None => None,
            Some(map) => if map == Map::<u16, Seq<char>>::empty() {
                None
            } else {
                Some(map)
            },
        }
    }
}

/// The languages of a clip's PGS streams, by packet identifier, if the data is
/// that of a clip information file with program information. The number of
/// sequences may stand at either of two places.
pub open spec fn clip_languages(data: Seq<u8>) -> Option<Map<u16, Seq<char>>> {
    if !is_clpi(data) {
        None
    } else {
        match section_named_at(data, 12) {
            None => None,
            Some(section) => if section.len() < 6 {
                None
            } else {
                match program_languages(section, 5) {
                    Some(map) => Some(map),
                    None => match program_languages(section, 4) {
                        Some(map) => Some(map),
                        None => Some(Map::empty()),
                    },
                }
            },
        }
    }
}

/// The view of a map of languages.
pub open spec fn language_map_view(m: Map<u16, String>) -> Map<u16, Seq<char>> {
    Map::new(|k: u16| m.contains_key(k), |k: u16| m[k]@)
}

/// The language in the attributes of a PGS stream.
fn read_language(field: &[u8]) -> (r: Option<String>)
    ensures
        match (r, clip_language(field@)) {
            (Some(l), Some(v)) => l@ == v,
            (None, None) => true,
            _ => false,
        },
{
    let copy = copy_range(field, 0, field.len());
    assert(copy@ =~= field@);
    match text_from_utf8(copy) {
        Ok(text) => match language_name(text.as_str()) {
            Some(l) => Some(normalize_language(l.as_str())),
            None => None,
        },
        Err(_) => None,
    }
}

/// Reads the streams at `pos`. Returns the position behind them.
fn read_streams(section: &[u8], pos: usize, n: u8, map: &mut HashMap<u16, String>) -> (r: Option<
    usize,
>)
    requires
        pos <= section@.len(),
    ensures
        match (
            r,
            clip_streams_at(section@, pos as int, n as nat, language_map_view(old(map)@)),
        ) {
            (Some(next), Some((m, end))) => next == end && language_map_view(final(map)@) == m
                && next <= section@.len(),
            (None, None) => true,
            _ => false,
        },
{
    broadcast use vstd::std_specs::hash::group_hash_axioms;

    let ghost goal = clip_streams_at(section@, pos as int, n as nat, language_map_view(map@));
    let mut at: usize = pos;
    let mut left: u8 = n;
    while left > 0
        invariant
            at <= section@.len(),
            goal == clip_streams_at(
                section@,
                pos as int,
                n as nat,
                language_map_view(old(map)@),
            ),
            goal == clip_streams_at(section@, at as int, left as nat, language_map_view(map@)),
        decreases left,
    {
        if section.len() - at < 3 {
            return None;
        }
        let pid: u16 = u16_be(section, at);
        let size: usize = section[at + 2] as usize;
        left -= 1;
        if size > 0 {
            if section.len() - at - 3 < size {
                return None;
            }
            let ghost before = language_map_view(map@);
            let coding_type: u8 = section[at + 3];
            if (coding_type == PGS_CODING_TYPE || coding_type == PGS_TEXT_CODING_TYPE) && size
                >= 4 {
                let field = vstd::slice::slice_subrange(section, at + 4, at + 7);
                if let Some(l) = read_language(field) {
                    if !map.contains_key(&pid) {
                        let ghost text = l@;
                        map.insert(pid, l);
                        assert(language_map_view(map@) =~= before.insert(pid, text));
                    }
                }
            }
            assert(language_map_view(map@) == with_stream(
                section@,
                at + 3,
                size as int,
                pid,
                before,
            ));
        }
        at += 3 + size;
    }
    Some(at)
}

/// The position behind the groups at `pos`, or the end of the section where
/// they reach behind it.
fn skip_groups(section: &[u8], pos: usize, n: u8) -> (r: usize)
    requires
        pos <= section@.len(),
    ensures
        r <= section@.len(),
        groups_end(section@, pos as int, n as nat) <= section@.len() ==> r == groups_end(
            section@,
            pos as int,
            n as nat,
        ),
        groups_end(section@, pos as int, n as nat) > section@.len() ==> r == section@.len(),
{
    let mut at: usize = pos;
    let mut left: u8 = n;
    let len: usize = section.len();
    while left > 0 && len - at >= 3
        invariant
            len == section@.len(),
            at <= len,
            groups_end(section@, pos as int, n as nat) == groups_end(
                section@,
                at as int,
                left as nat,
            ),
        decreases left,
    {
        let size: u16 = u16_be(section, at + 1);
        if len - at - 3 < size as usize {
            assert(groups_end(section@, at + 3 + size, (left - 1) as nat) == at + 3 + size);
            return len;
        }
        at += 3 + size as usize;
        left -= 1;
    }
    at
}

/// Parses program sequences whose number is at `count_offset`.
pub fn parse_program_info_sequences(section: &[u8], count_offset: usize) -> (r: Option<
    HashMap<u16, String>,
>)
    ensures
        match (r, program_languages(section@, count_offset as int)) {
            (Some(map), Some(v)) => language_map_view(map@) == v,
            (None, None) => true,
            _ => false,
        },
{
    if count_offset >= section.len() {
        return None;
    }
    let count: u8 = section[count_offset];
    if count == 0 || count > 100 {
        return None;
    }
    let len: usize = section.len();
    let mut map: HashMap<u16, String> = HashMap::new();
    let mut pos: usize = count_offset + 1;
    let mut left: u8 = count;
    let ghost goal = sequences_at(section@, pos as int, count as nat, Map::empty());
    assert(language_map_view(map@) =~= Map::<u16, Seq<char>>::empty());
    while left > 0
        invariant
            len == section@.len(),
            count_offset < len,
            pos <= len,
            count == section@[count_offset as int],
            0 < count <= 100,
            goal == sequences_at(section@, count_offset + 1, count as nat, Map::empty()),
            goal == sequences_at(section@, pos as int, left as nat, language_map_view(map@)),
        decreases left,
    {
        if len - pos < 8 {
            return None;
        }
        let num_streams: u8 = section[pos + 6];
        let num_groups: u8 = section[pos + 7];
        match read_streams(section, pos + 8, num_streams, &mut map) {
            Some(next) => {
                pos = skip_groups(section, next, num_groups);
                proof {
                    let far = groups_end(section@, next as int, num_groups as nat);
                    let more = language_map_view(map@);
                    let rest = (left - 1) as nat;
                    assert(sequences_at(section@, pos as int, rest, more) == sequences_at(
                        section@,
                        far,
                        rest,
                        more,
                    ));
                }
            },
            None => {
                return None;
            },
        }
        left -= 1;
    }
    if map.len() == 0 {
        proof {
            assert(map@.dom().finite());
            assert(map@.dom() =~= Set::<u16>::empty());
            assert(language_map_view(map@) =~= Map::<u16, Seq<char>>::empty());
        }
        None
    } else {
        proof {
            if language_map_view(map@) == Map::<u16, Seq<char>>::empty() {
                assert forall|k: u16| !map@.contains_key(k) by {
                    assert(!language_map_view(map@).contains_key(k));
                }
                assert(map@.dom() =~= Set::<u16>::empty());
            }
        }
        Some(map)
    }
}

/// Parses the languages of a clip's PGS streams. Fails if the data is not that
/// of a clip information file with program information.
pub fn parse_clpi_file(data: &[u8]) -> (r: Result<HashMap<u16, String>, ()>)
    ensures
        match (r, clip_languages(data@)) {
            (Ok(map), Some(v)) => language_map_view(map@) == v,
            (Err(()), None) => true,
            _ => false,
        },
{
    if !check_clpi(data) {
        return Err(());
    }
    let section = match named_section(data, PROGRAM_INFO_OFFSET_POS) {
        Some(section) => section,
        None => {
            return Err(());
        },
    };
    if section.len() < 6 {
        return Err(());
    }
    if let Some(map) = parse_program_info_sequences(section, 5) {
        return Ok(map);
    }
    if let Some(map) = parse_program_info_sequences(section, 4) {
        return Ok(map);
    }
    let none: HashMap<u16, String> = HashMap::new();
    assert(language_map_view(none@) =~= Map::<u16, Seq<char>>::empty());
    Ok(none)
}

/// The place behind the last occurrence of a character in a text, or 0.
pub open spec fn behind_last(t: Seq<char>, c: char) -> int
    decreases t.len(),
{
    if t.len() == 0 {
        0
    } else if t.last() == c {
        t.len() as int
    } else {
        behind_last(t.drop_last(), c)
    }
}

/// A file name without its extension. A dot in front starts no extension.
pub open spec fn stem_of(name: Seq<char>) -> Seq<char> {
    let dot = behind_last(name, '.');
    if dot > 1 {
        name.take(dot - 1)
    } else {
        name
    }
}

/// A path without what counts as nothing at its end: slashes, other than one that
/// is the whole path, and parts "." that are not the first.
pub open spec fn path_trimmed(path: Seq<char>) -> Seq<char>
    decreases path.len(),
{
    if path.len() > 1 && (path.last() == '/' || (path.last() == '.' && path[path.len() - 2]
        == '/')) {
        path_trimmed(path.drop_last())
    } else {
        path
    }
}

/// The last part of a path without anything at its end that counts as nothing, if
/// it is a name.
pub open spec fn last_name(path: Seq<char>) -> Option<Seq<char>> {
    let name = path.skip(behind_last(path, '/'));
    if name.len() == 0 || name == "."@ || name == ".."@ {
        None
    } else {
        Some(name)
    }
}

/// The directory that the last part of a path is in.
pub open spec fn directory_of(path: Seq<char>) -> Seq<char> {
    path_trimmed(path.take(behind_last(path, '/')))
}

/// A name in a directory.
pub open spec fn path_in(dir: Seq<char>, name: Seq<char>) -> Seq<char> {
    if dir.len() == 0 || dir.last() == '/' {
        dir + name
    } else {
        dir.push('/') + name
    }
}

/// The places where the clip information of a stream file may be, in the order
/// in which they are to be tried, if the file is in a directory named "STREAM"
/// in upper or lower case. The parts of a path are separated by slashes; empty
/// parts, and parts "." that are not the first, count as nothing.
pub open spec fn clip_paths(path: Seq<char>) -> Option<(Seq<char>, Seq<char>)> {
    let file = path_trimmed(path);
    let dir = directory_of(file);
    match (last_name(file), last_name(dir)) {
        (Some(name), Some(dir_name)) => if lowered(dir_name) == "stream"@ {
            let base = directory_of(dir);
            let clip = stem_of(name) + ".clpi"@;
            Some((path_in(path_in(base, "CLIPINF"@), clip), path_in(path_in(base, "clipinf"@), clip)))
        } else {
            None
        },
        _ => None,
    }
}

fn find_last(t: &str, n: usize, c: char) -> (r: usize)
    requires
        n <= t@.len(),
    ensures
        r == behind_last(t@.take(n as int), c),
        r <= n,
{
    let mut i: usize = n;
    while i > 0 && t.get_char(i - 1) != c
        invariant
            i <= n <= t@.len(),
            behind_last(t@.take(n as int), c) == behind_last(t@.take(i as int), c),
        decreases i,
    {
        assert(t@.take(i as int).drop_last() =~= t@.take(i - 1));
        i -= 1;
    }
    i
}

/// The length of the first `n` characters of a path without what counts as
/// nothing at their end.
fn trim_path(path: &str, n: usize) -> (r: usize)
    requires
        n <= path@.len(),
    ensures
        r <= n,
        path@.take(r as int) == path_trimmed(path@.take(n as int)),
{
    let mut i: usize = n;
    while i > 1 && (path.get_char(i - 1) == '/' || (path.get_char(i - 1) == '.' && path.get_char(
        i - 2,
    ) == '/'))
        invariant
            i <= n <= path@.len(),
            path_trimmed(path@.take(n as int)) == path_trimmed(path@.take(i as int)),
        decreases i,
    {
        assert(path@.take(i as int).drop_last() =~= path@.take(i - 1));
        i -= 1;
    }
    i
}

/// Whether a part of a path is a name.
fn is_name(part: &str) -> (r: bool)
    ensures
        r == (part@.len() > 0 && part@ != "."@ && part@ != ".."@),
{
    let n: usize = part.unicode_len();
    proof {
        reveal_strlit(".");
        reveal_strlit("..");
    }
    if n == 0 || n > 2 {
        return n > 0;
    }
    if part.get_char(0) != '.' {
        return true;
    }
    if n == 2 && part.get_char(1) != '.' {
        return true;
    }
    proof {
        if n == 1 {
            assert(part@ =~= "."@);
        } else {
            assert(part@ =~= ".."@);
        }
    }
    false
}

/// The path of a clip information file in a directory.
fn clip_path(base: &str, dir: &str, stem: &str) -> (r: String)
    requires
        dir@.len() > 0,
        dir@.last() != '/',
    ensures
        r@ == path_in(path_in(base@, dir@), stem@ + ".clpi"@),
{
    let n: usize = base.unicode_len();
    let mut path = base.to_owned();
    if n > 0 && base.get_char(n - 1) != '/' {
        path.push('/');
    }
    path.push_str(dir);
    assert(path@ =~= path_in(base@, dir@));
    path.push('/');
    path.push_str(stem);
    path.push_str(".clpi");
    assert(path_in(base@, dir@).last() == dir@.last());
    assert(path@ =~= path_in(path_in(base@, dir@), stem@ + ".clpi"@));
    path
}

/// Whether a name is "STREAM", in upper or lower case.
fn is_stream_dir(name: &str) -> (r: bool)
    ensures
        r == (lowered(name@) == "stream"@),
{
    let wanted = "stream";
    let n: usize = name.unicode_len();
    if n != wanted.unicode_len() {
        assert(lowered(name@).len() != wanted@.len());
        return false;
    }
    let mut i: usize = 0;
    while i < n
        invariant
            i <= n == name@.len(),
            n == wanted@.len(),
            wanted@ == "stream"@,
            forall|k: int| 0 <= k < i ==> lowered(name@)[k] == wanted@[k],
        decreases n - i,
    {
        if lower_of(name.get_char(i)) != wanted.get_char(i) {
            assert(lowered(name@)[i as int] != wanted@[i as int]);
            return false;
        }
        i += 1;
    }
    assert(lowered(name@) =~= wanted@);
    true
}

/// The places where the clip information of a stream file may be, in the order
/// in which they are to be tried.
///
/// `BDMV/STREAM/00001.m2ts` has it in `BDMV/CLIPINF/00001.clpi` or
/// `BDMV/clipinf/00001.clpi`. A file in another directory has none.
pub fn resolve_clpi_path(m2ts_path: &str) -> (r: Option<(String, String)>)
    ensures
        match (r, clip_paths(m2ts_path@)) {
            (Some((a, b)), Some((v, w))) => a@ == v && b@ == w,
            (None, None) => true,
            _ => false,
        },
{
    let n: usize = m2ts_path.unicode_len();
    assert(m2ts_path@.take(n as int) =~= m2ts_path@);
    let file_end: usize = trim_path(m2ts_path, n);
    let file_start: usize = find_last(m2ts_path, file_end, '/');
    let name = m2ts_path.substring_char(file_start, file_end);
    let dir_end: usize = trim_path(m2ts_path, file_start);
    let dir_start: usize = find_last(m2ts_path, dir_end, '/');
    let dir_name = m2ts_path.substring_char(dir_start, dir_end);
    let base_end: usize = trim_path(m2ts_path, dir_start);
    let base = m2ts_path.substring_char(0, base_end);
    proof {
        let file = m2ts_path@.take(file_end as int);
        let dir = m2ts_path@.take(dir_end as int);
        assert(name@ =~= file.skip(file_start as int));
        assert(file.take(file_start as int) =~= m2ts_path@.take(file_start as int));
        assert(dir_name@ =~= dir.skip(dir_start as int));
        assert(dir.take(dir_start as int) =~= m2ts_path@.take(dir_start as int));
        assert(base@ =~= m2ts_path@.take(base_end as int));
    }
    if !is_name(name) || !is_name(dir_name) || !is_stream_dir(dir_name) {
        return None;
    }
    let name_len: usize = name.unicode_len();
    assert(name@.take(name_len as int) =~= name@);
    let dot: usize = find_last(name, name_len, '.');
    let stem = if dot > 1 { name.substring_char(0, dot - 1) } else { name };
    assert(stem@ =~= stem_of(name@));
    proof {
        reveal_strlit("CLIPINF");
        reveal_strlit("clipinf");
    }
    Some((clip_path(base, "CLIPINF", stem), clip_path(base, "clipinf", stem)))
}

} // verus!
