//! What the command line reads and prints about tracks.
use vstd::prelude::*;
use crate::mkv::tracks::text_view;
use crate::text::{decimal, parse_u64, parsed_u64, push_decimal, trim_text, trimmed};
use crate::track::{
    track_set_views, ContainerFormat, PgsTrackInfo, TrackDisplaySet, TrackInfoView, TrackSetView,
};

verus! {

/// The word for a container format in a track listing.
pub open spec fn format_text(c: ContainerFormat) -> Seq<char> {
    match c {
        ContainerFormat::Matroska => "Matroska"@,
        ContainerFormat::M2ts => "M2ts"@,
        ContainerFormat::TransportStream => "TransportStream"@,
        ContainerFormat::Sup => "Sup"@,
    }
}

/// A language, or a word for none.
pub open spec fn language_text(language: Option<Seq<char>>) -> Seq<char> {
    match language {
        Some(l) => l,
        None => "unknown"@,
    }
}

/// A name, if there is one.
pub open spec fn name_text(name: Option<Seq<char>>) -> Seq<char> {
    match name {
        Some(n) => ", name=\""@ + n + "\""@,
        None => Seq::empty(),
    }
}

/// A word, if a flag is known to be set.
pub open spec fn flag_text(flag: Option<bool>, word: Seq<char>) -> Seq<char> {
    if flag == Some(true) {
        ", "@ + word
    } else {
        Seq::empty()
    }
}

/// The number of display sets, if it is known.
pub open spec fn count_text(count: Option<u64>) -> Seq<char> {
    match count {
        Some(n) => ", display_sets="@ + decimal(n as nat),
        None => Seq::empty(),
    }
}

/// Whether there is an index, if it is known.
pub open spec fn cues_text(cues: Option<bool>) -> Seq<char> {
    match cues {
        Some(true) => ", has_cues=true"@,
        Some(false) => ", has_cues=false"@,
        None => Seq::empty(),
    }
}

/// A track's line in a track listing.
pub open spec fn listing_text(t: TrackInfoView) -> Seq<char> {
    "  Track "@ + decimal(t.track_id as nat) + ": language="@ + language_text(t.language)
        + ", format="@ + format_text(t.container) + name_text(t.name) + flag_text(
        t.flag_default,
        "default"@,
    ) + flag_text(t.flag_forced, "forced"@) + count_text(t.display_set_count) + cues_text(
        t.has_cues,
    )
}

fn push_format(s: &mut String, c: ContainerFormat)
    ensures
        final(s)@ == old(s)@ + format_text(c),
{
    match c {
        ContainerFormat::Matroska => s.push_str("Matroska"),
        ContainerFormat::M2ts => s.push_str("M2ts"),
        ContainerFormat::TransportStream => s.push_str("TransportStream"),
        ContainerFormat::Sup => s.push_str("Sup"),
    }
}

fn push_language(s: &mut String, t: &PgsTrackInfo)
    ensures
        final(s)@ == old(s)@ + language_text(t@.language),
{
    match &t.language {
        Some(l) => s.push_str(l.as_str()),
        None => s.push_str("unknown"),
    }
}

fn push_name(s: &mut String, name: &Option<String>)
    ensures
        final(s)@ == old(s)@ + name_text(text_view(*name)),
{
    match name {
        Some(n) => {
            s.push_str(", name=\"");
            s.push_str(n.as_str());
            s.push_str("\"");
        },
        None => {},
    }
    assert(s@ =~= old(s)@ + name_text(text_view(*name)));
}

fn push_flag(s: &mut String, flag: Option<bool>, word: &str)
    ensures
        final(s)@ == old(s)@ + flag_text(flag, word@),
{
    if flag == Some(true) {
        s.push_str(", ");
        s.push_str(word);
    }
    assert(s@ =~= old(s)@ + flag_text(flag, word@));
}

fn push_count(s: &mut String, count: Option<u64>)
    ensures
        final(s)@ == old(s)@ + count_text(count),
{
    if let Some(n) = count {
        s.push_str(", display_sets=");
        push_decimal(s, n);
    }
    assert(s@ =~= old(s)@ + count_text(count));
}

fn push_cues(s: &mut String, cues: Option<bool>)
    ensures
        final(s)@ == old(s)@ + cues_text(cues),
{
    match cues {
        Some(true) => s.push_str(", has_cues=true"),
        Some(false) => s.push_str(", has_cues=false"),
        None => {},
    }
    assert(s@ =~= old(s)@ + cues_text(cues));
}

/// A track's line in a track listing.
pub fn track_listing(t: &PgsTrackInfo) -> (r: String)
    ensures
        r@ == listing_text(t@),
{
    let mut s = "  Track ".to_owned();
    push_decimal(&mut s, t.track_id as u64);
    s.push_str(": language=");
    push_language(&mut s, t);
    s.push_str(", format=");
    push_format(&mut s, t.container);
    push_name(&mut s, &t.name);
    push_flag(&mut s, t.flag_default, "default");
    push_flag(&mut s, t.flag_forced, "forced");
    push_count(&mut s, t.display_set_count);
    push_cues(&mut s, t.has_cues);
    s
}

/// The parts of a text between its commas.
pub open spec fn comma_parts(t: Seq<char>) -> Seq<Seq<char>>
    decreases t.len(),
{
    if t.len() == 0 {
        seq![Seq::empty()]
    } else {
        let before = comma_parts(t.drop_last());
        if t.last() == ',' {
            before.push(Seq::empty())
        } else {
            before.drop_last().push(before.last().push(t.last()))
        }
    }
}

/// The track identifiers that texts spell, or the first that spells none. White
/// space around an identifier is ignored.
pub open spec fn ids_of(parts: Seq<Seq<char>>) -> Result<Seq<u32>, Seq<char>>
    decreases parts.len(),
{
    if parts.len() == 0 {
        Ok(Seq::empty())
    } else {
        let text = trimmed(parts.last());
        match (ids_of(parts.drop_last()), parsed_u64(text)) {
            (Err(e), _) => Err(e),
            (Ok(ids), Some(n)) => if n <= u32::MAX {
                Ok(ids.push(n as u32))
            } else {
                Err(text)
            },
            (Ok(_), None) => Err(text),
        }
    }
}

/// The views of texts.
pub open spec fn text_views(texts: Seq<String>) -> Seq<Seq<char>> {
    Seq::new(texts.len(), |i: int| texts[i]@)
}

fn split_commas(value: &str) -> (r: Vec<String>)
    ensures
        text_views(r@) == comma_parts(value@),
{
    let mut parts: Vec<String> = Vec::new();
    let mut current = String::new();
    assert(value@.take(0) =~= Seq::empty());
    assert(text_views(parts@).push(current@) =~= comma_parts(value@.take(0)));
    for c in it: value.chars()
        invariant
            it.seq() == value@,
            text_views(parts@).push(current@) == comma_parts(value@.take(it.index() as int)),
    {
        let ghost before = text_views(parts@).push(current@);
        proof {
            let more = value@.take(it.index() + 1);
            assert(more.drop_last() =~= value@.take(it.index() as int));
            assert(more.last() == c);
            assert(before.drop_last() =~= text_views(parts@));
        }
        if c == ',' {
            parts.push(current);
            current = String::new();
            assert(text_views(parts@) =~= before);
            assert(current@ =~= Seq::empty());
        } else {
            current.push(c);
        }
    }
    assert(value@.take(value@.len() as int) =~= value@);
    let ghost goal = text_views(parts@).push(current@);
    parts.push(current);
    assert(text_views(parts@) =~= goal);
    parts
}

proof fn lemma_ids_stop(parts: Seq<Seq<char>>, n: int)
    requires
        0 <= n <= parts.len(),
        ids_of(parts.take(n)) is Err,
    ensures
        ids_of(parts) == ids_of(parts.take(n)),
    decreases parts.len(),
{
    if n == parts.len() {
        assert(parts.take(n) =~= parts);
    } else {
        assert(parts.drop_last().take(n) =~= parts.take(n));
        lemma_ids_stop(parts.drop_last(), n);
    }
}

/// The track identifiers in a comma-separated list, or the first part that is
/// none.
pub fn parse_track_ids(value: &str) -> (r: Result<Vec<u32>, String>)
    ensures
        match (r, ids_of(comma_parts(value@))) {
            (Ok(v), Ok(ids)) => v@ == ids,
            (Err(e), Err(t)) => e@ == t,
            _ => false,
        },
{
    let parts = split_commas(value);
    let ghost all = text_views(parts@);
    let mut ids: Vec<u32> = Vec::new();
    let mut i: usize = 0;
    assert(all.take(0) =~= Seq::empty());
    while i < parts.len()
        invariant
            i <= parts@.len(),
            all == text_views(parts@),
            all == comma_parts(value@),
            ids_of(all.take(i as int)) == Ok::<Seq<u32>, Seq<char>>(ids@),
        decreases parts@.len() - i,
    {
        assert(all.take(i + 1).drop_last() =~= all.take(i as int));
        assert(all.take(i + 1).last() == parts@[i as int]@);
        let text = trim_text(parts[i].as_str());
        match parse_u64(text) {
            Some(n) if n <= 0xFFFF_FFFF => {
                ids.push(n as u32);
            },
            _ => {
                proof {
                    lemma_ids_stop(all, i + 1);
                }
                return Err(text.to_owned());
            },
        }
        i += 1;
    }
    assert(all.take(i as int) =~= all);
    Ok(ids)
}

/// The name of the file for one of several tracks.
pub open spec fn file_name_text(stem: Seq<char>, track_id: u64, ext: Seq<char>) -> Seq<char> {
    stem + "_track"@ + decimal(track_id as nat) + "."@ + ext
}

/// The name of the file for one of several tracks.
pub fn track_file_name(stem: &str, track_id: u64, ext: &str) -> (r: String)
    ensures
        r@ == file_name_text(stem@, track_id, ext@),
{
    let mut s = stem.to_owned();
    s.push_str("_track");
    push_decimal(&mut s, track_id);
    s.push_str(".");
    s.push_str(ext);
    s
}

/// The names of the files for tracks, one for each, if there are several. A
/// single track goes to the file that was asked for.
pub fn output_names(stem: &str, track_ids: &[u64], ext: &str) -> (r: Option<Vec<String>>)
    ensures
        match r {
            None => track_ids@.len() <= 1,
            Some(names) => {
                &&& track_ids@.len() > 1
                &&& text_views(names@) == Seq::new(
                    track_ids@.len(),
                    |i: int| file_name_text(stem@, track_ids@[i], ext@),
                )
            },
        },
{
    if track_ids.len() <= 1 {
        return None;
    }
    let mut names: Vec<String> = Vec::new();
    let mut i: usize = 0;
    let ghost goal = Seq::new(
        track_ids@.len(),
        |i: int| file_name_text(stem@, track_ids@[i], ext@),
    );
    assert(text_views(names@) =~= goal.take(0));
    while i < track_ids.len()
        invariant
            i <= track_ids@.len(),
            goal == Seq::new(
                track_ids@.len(),
                |i: int| file_name_text(stem@, track_ids@[i], ext@),
            ),
            text_views(names@) == goal.take(i as int),
        decreases track_ids@.len() - i,
    {
        let name = track_file_name(stem, track_ids[i], ext);
        let ghost before = text_views(names@);
        names.push(name);
        assert(text_views(names@) =~= before.push(name@));
        assert(goal.take(i + 1) =~= before.push(name@));
        i += 1;
    }
    assert(goal.take(i as int) =~= goal);
    Some(names)
}

/// What a benchmark says about a track.
pub open spec fn totals_text(t: TrackInfoView, sets: u64, segments: u64) -> Seq<char> {
    "  Track "@ + decimal(t.track_id as nat) + " ("@ + language_text(t.language) + "): "@ + decimal(
        sets as nat,
    ) + " display sets, "@ + decimal(segments as nat) + " segments"@
}

/// What a benchmark says about a track, if it has display sets.
pub fn track_totals_line(t: &PgsTrackInfo, sets: &[TrackDisplaySet]) -> (r: Option<String>)
    requires
        segment_total(track_set_views(sets@)) <= u64::MAX,
    ensures
        ({
            let (n, m) = track_totals(track_set_views(sets@), t.track_id);
            match r {
                Some(s) => n > 0 && s@ == totals_text(t@, n as u64, m as u64),
                None => n == 0,
            }
        }),
{
    let (n, m) = count_track(sets, t.track_id);
    if n == 0 {
        return None;
    }
    let mut s = "  Track ".to_owned();
    push_decimal(&mut s, t.track_id as u64);
    s.push_str(" (");
    push_language(&mut s, t);
    s.push_str("): ");
    push_decimal(&mut s, n);
    s.push_str(" display sets, ");
    push_decimal(&mut s, m);
    s.push_str(" segments");
    Some(s)
}

/// The number of display sets of a track, and of their segments.
pub open spec fn track_totals(sets: Seq<TrackSetView>, id: u32) -> (nat, nat)
    decreases sets.len(),
{
    if sets.len() == 0 {
        (0, 0)
    } else {
        let (n, m) = track_totals(sets.drop_last(), id);
        if sets.last().track_id == id {
            (n + 1, m + sets.last().display_set.segments.len())
        } else {
            (n, m)
        }
    }
}

/// The number of segments of display sets.
pub open spec fn segment_total(sets: Seq<TrackSetView>) -> nat
    decreases sets.len(),
{
    if sets.len() == 0 {
        0
    } else {
        segment_total(sets.drop_last()) + sets.last().display_set.segments.len()
    }
}

proof fn lemma_totals(sets: Seq<TrackSetView>, n: int, id: u32)
    requires
        0 <= n <= sets.len(),
    ensures
        segment_total(sets.take(n)) <= segment_total(sets),
        track_totals(sets.take(n), id).0 <= n,
        track_totals(sets.take(n), id).1 <= segment_total(sets.take(n)),
    decreases sets.len(), n,
{
    if n < sets.len() {
        lemma_totals(sets.drop_last(), n, id);
        assert(sets.drop_last().take(n) =~= sets.take(n));
    } else if n > 0 {
        assert(sets.take(n) =~= sets);
        lemma_totals(sets.drop_last(), n - 1, id);
        assert(sets.drop_last().take(n - 1) =~= sets.drop_last());
    }
}

/// The number of display sets of a track, and of their segments.
pub fn count_track(sets: &[TrackDisplaySet], track_id: u32) -> (r: (u64, u64))
    requires
        segment_total(track_set_views(sets@)) <= u64::MAX,
    ensures
        (r.0 as nat, r.1 as nat) == track_totals(track_set_views(sets@), track_id),
{
    let ghost all = track_set_views(sets@);
    let mut n: u64 = 0;
    let mut m: u64 = 0;
    let mut i: usize = 0;
    assert(all.take(0) =~= Seq::empty());
    while i < sets.len()
        invariant
            i <= sets@.len(),
            all == track_set_views(sets@),
            segment_total(all) <= u64::MAX,
            (n as nat, m as nat) == track_totals(all.take(i as int), track_id),
        decreases sets@.len() - i,
    {
        assert(all.take(i + 1).drop_last() =~= all.take(i as int));
        proof {
            lemma_totals(all, i + 1, track_id);
        }
        if sets[i].track_id == track_id {
            n = n + 1;
            m = m + sets[i].display_set.segments.len() as u64;
        }
        i += 1;
    }
    assert(all.take(i as int) =~= all);
    (n, m)
}

} // verus!
