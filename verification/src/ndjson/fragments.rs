//! Objects that come in fragments, and payloads that cannot be read.
use vstd::prelude::*;
use crate::ndjson::base64::base64_text;
use crate::ndjson::json::Json;
use crate::ndjson::keys::{lacks, lemma_more_keys, lemma_says, says};
use crate::ndjson::lines::{
    composition_tree, first_composition, object_tree, object_with_id, objects_of, palette_trees,
    window_trees, with_segment, ObjectView, Tree,
};
use crate::ndjson::roundtrip::lemma_keys;
use crate::pgs::payload::{
    ods_parsed, pcs_parsed, pds_parsed, wds_parsed, OdsView, SequenceFlag,
};
use crate::pgs::segment::SegmentView;

verus! {

/// Whether a segment holds a fragment of the object with an identifier.
pub open spec fn is_fragment_of(s: SegmentView, id: u16) -> bool {
    s.segment_type is ObjectDefinition && (ods_parsed(s.payload) matches Some(f) && f.id == id)
}

/// The encoded data of fragments, one after the other.
pub open spec fn data_of(run: Seq<SegmentView>) -> Seq<u8>
    decreases run.len(),
{
    if run.len() == 0 {
        Seq::empty()
    } else {
        data_of(run.drop_last()) + ods_parsed(run.last().payload)->0.rle_data
    }
}

/// The payloads of segments, one after the other.
pub open spec fn payloads_of(run: Seq<SegmentView>) -> Seq<u8>
    decreases run.len(),
{
    if run.len() == 0 {
        Seq::empty()
    } else {
        payloads_of(run.drop_last()) + run.last().payload
    }
}

proof fn lemma_not_there(objects: Seq<ObjectView>, id: u16, i: int)
    requires
        0 <= i,
        forall|k: int|
            0 <= k < objects.len() ==> ((#[trigger] objects[k]).first matches Some(f) ==> f.id
                != id),
    ensures
        object_with_id(objects, id, i) is None,
    decreases objects.len() - i,
{
    if i < objects.len() {
        assert(objects[i].first matches Some(f) ==> f.id != id);
        lemma_not_there(objects, id, i + 1);
    }
}

proof fn lemma_at_the_end(objects: Seq<ObjectView>, o: ObjectView, id: u16, i: int)
    requires
        0 <= i <= objects.len(),
        forall|k: int|
            0 <= k < objects.len() ==> ((#[trigger] objects[k]).first matches Some(f) ==> f.id
                != id),
        o.first matches Some(f) && f.id == id,
    ensures
        object_with_id(objects.push(o), id, i) == Some(objects.len() as int),
    decreases objects.len() - i,
{
    if i < objects.len() {
        assert(objects[i].first matches Some(f) ==> f.id != id);
        assert(objects.push(o)[i] == objects[i]);
        lemma_at_the_end(objects, o, id, i + 1);
    }
}

/// The fragments of an object that has not been seen are put together to one object:
/// with the fields of the first, and the data and payloads of all of them, in order.
pub proof fn fragments_are_put_together(
    before: Seq<SegmentView>,
    run: Seq<SegmentView>,
    id: u16,
    raw: bool,
)
    requires
        run.len() > 0,
        forall|i: int| 0 <= i < run.len() ==> is_fragment_of(#[trigger] run[i], id),
        forall|k: int|
            0 <= k < objects_of(before, raw).len() ==> ((#[trigger] objects_of(
                before,
                raw,
            )[k]).first matches Some(f) ==> f.id != id),
    ensures
        objects_of(before + run, raw) == objects_of(before, raw).push(
            ObjectView {
                first: ods_parsed(run[0].payload),
                reassembled: run.len() > 1,
                rle: data_of(run),
                payload: payloads_of(run),
            },
        ),
    decreases run.len(),
{
    let objects = objects_of(before, raw);
    let last = run.last();
    let init = run.drop_last();
    assert(is_fragment_of(run[run.len() - 1], id));
    assert((before + run).drop_last() =~= before + init);
    assert((before + run).last() == last);
    let none = Seq::<u8>::empty();
    if init.len() == 0 {
        assert(before + init =~= before);
        lemma_not_there(objects, id, 0);
        let data = ods_parsed(last.payload)->0.rle_data;
        assert(none + data =~= data);
        assert(none + last.payload =~= last.payload);
    } else {
        assert forall|i: int| 0 <= i < init.len() implies is_fragment_of(
            #[trigger] init[i],
            id,
        ) by {
            assert(init[i] == run[i]);
        }
        fragments_are_put_together(before, init, id, raw);
        assert(is_fragment_of(run[0], id));
        let o = objects_of(before + init, raw).last();
        lemma_at_the_end(objects, o, id, 0);
    }
    assert(objects_of(before + run, raw) =~= objects.push(
        ObjectView {
            first: ods_parsed(run[0].payload),
            reassembled: run.len() > 1,
            rle: data_of(run),
            payload: payloads_of(run),
        },
    ));
}

/// In the JSON of an object of one fragment, the fragment's position stands by its
/// name. Of one that does not start an object there are no dimensions and no bitmap.
pub proof fn lone_fragment_by_key(o: ObjectView, f: OdsView, raw: bool)
    requires
        o.first == Some(f),
        !o.reassembled,
    ensures
        says(
            object_tree(o, raw),
            "sequence"@,
            Json::Str(
                match f.sequence {
                    SequenceFlag::Complete => "complete"@,
                    SequenceFlag::First => "first"@,
                    SequenceFlag::Last => "last"@,
                    SequenceFlag::Continuation => "continuation"@,
                },
            ),
        ),
        f.width is None && f.height is None ==> lacks(object_tree(o, raw), "width"@) && lacks(
            object_tree(o, raw),
            "height"@,
        ) && says(object_tree(o, raw), "bitmap"@, Json::Null),
{
    lemma_keys();
    lemma_more_keys();
    let pairs = object_tree(o, raw)->Object_0;
    lemma_says(pairs, 2, "sequence"@, pairs[2].1);
    if f.width is None && f.height is None {
        lemma_says(pairs, 4, "bitmap"@, pairs[4].1);
    }
}

/// A payload that cannot be read is left out, or, where payloads are wanted, stands
/// beside null values.
pub proof fn unreadable_payloads_by_key(
    s: SegmentView,
    rest: Seq<SegmentView>,
    objects: Seq<ObjectView>,
)
    ensures
        s.segment_type is PresentationComposition && pcs_parsed(s.payload) is None ==> {
            let j = composition_tree(seq![s] + rest, true);
            &&& composition_tree(seq![s] + rest, false) == Tree::Null
            &&& says(j, "number"@, Json::Null)
            &&& says(j, "state"@, Json::Null)
            &&& says(j, "video_width"@, Json::Null)
            &&& says(j, "video_height"@, Json::Null)
            &&& says(j, "palette_only"@, Json::Null)
            &&& says(j, "palette_id"@, Json::Null)
            &&& says(j, "objects"@, Json::Null)
            &&& says(j, "payload"@, Json::Str(base64_text(s.payload)))
        },
        s.segment_type is WindowDefinition && wds_parsed(s.payload) is None ==> {
            let j = window_trees(s, true)[0];
            &&& window_trees(s, false).len() == 0
            &&& window_trees(s, true).len() == 1
            &&& says(j, "id"@, Json::Null)
            &&& says(j, "x"@, Json::Null)
            &&& says(j, "y"@, Json::Null)
            &&& says(j, "width"@, Json::Null)
            &&& says(j, "height"@, Json::Null)
            &&& says(j, "payload"@, Json::Str(base64_text(s.payload)))
        },
        s.segment_type is PaletteDefinition && pds_parsed(s.payload) is None ==> {
            let j = palette_trees(s, true)[0];
            &&& palette_trees(s, false).len() == 0
            &&& palette_trees(s, true).len() == 1
            &&& says(j, "id"@, Json::Null)
            &&& says(j, "version"@, Json::Null)
            &&& says(j, "entries"@, Json::Null)
            &&& says(j, "payload"@, Json::Str(base64_text(s.payload)))
        },
        s.segment_type is ObjectDefinition && ods_parsed(s.payload) is None ==> {
            let more = with_segment(objects, s, true);
            let j = object_tree(more.last(), true);
            &&& with_segment(objects, s, false) == objects
            &&& more.len() == objects.len() + 1
            &&& more.drop_last() == objects
            &&& says(j, "id"@, Json::Null)
            &&& says(j, "version"@, Json::Null)
            &&& says(j, "sequence"@, Json::Null)
            &&& says(j, "data_length"@, Json::Null)
            &&& says(j, "width"@, Json::Null)
            &&& says(j, "height"@, Json::Null)
            &&& says(j, "bitmap"@, Json::Null)
            &&& says(j, "payload"@, Json::Str(base64_text(s.payload)))
        },
        !(s.segment_type is ObjectDefinition) ==> with_segment(objects, s, true) == objects
            && with_segment(objects, s, false) == objects,
{
    lemma_keys();
    lemma_more_keys();
    if s.segment_type is PresentationComposition && pcs_parsed(s.payload) is None {
        lemma_unread_composition(s, rest);
    } else if s.segment_type is WindowDefinition && wds_parsed(s.payload) is None {
        let pairs = window_trees(s, true)[0]->Object_0;
        lemma_says(pairs, 0, "id"@, Json::Null);
        lemma_says(pairs, 1, "x"@, Json::Null);
        lemma_says(pairs, 2, "y"@, Json::Null);
        lemma_says(pairs, 3, "width"@, Json::Null);
        lemma_says(pairs, 4, "height"@, Json::Null);
        lemma_says(pairs, 5, "payload"@, Json::Str(base64_text(s.payload)));
    } else if s.segment_type is PaletteDefinition && pds_parsed(s.payload) is None {
        let pairs = palette_trees(s, true)[0]->Object_0;
        lemma_says(pairs, 0, "id"@, Json::Null);
        lemma_says(pairs, 1, "version"@, Json::Null);
        lemma_says(pairs, 2, "entries"@, Json::Null);
        lemma_says(pairs, 3, "payload"@, Json::Str(base64_text(s.payload)));
    } else if s.segment_type is ObjectDefinition && ods_parsed(s.payload) is None {
        lemma_unread_object(s, objects);
    }
}

proof fn lemma_unread_composition(s: SegmentView, rest: Seq<SegmentView>)
    requires
        s.segment_type is PresentationComposition,
        pcs_parsed(s.payload) is None,
    ensures
        ({
            let j = composition_tree(seq![s] + rest, true);
            &&& composition_tree(seq![s] + rest, false) == Tree::Null
            &&& says(j, "number"@, Json::Null)
            &&& says(j, "state"@, Json::Null)
            &&& says(j, "video_width"@, Json::Null)
            &&& says(j, "video_height"@, Json::Null)
            &&& says(j, "palette_only"@, Json::Null)
            &&& says(j, "palette_id"@, Json::Null)
            &&& says(j, "objects"@, Json::Null)
            &&& says(j, "payload"@, Json::Str(base64_text(s.payload)))
        }),
{
    lemma_keys();
    lemma_more_keys();
    assert((seq![s] + rest)[0] == s);
    assert(first_composition(seq![s] + rest) == Some(s));
    let pairs = composition_tree(seq![s] + rest, true)->Object_0;
    lemma_says(pairs, 0, "number"@, Json::Null);
    lemma_says(pairs, 1, "state"@, Json::Null);
    lemma_says(pairs, 2, "video_width"@, Json::Null);
    lemma_says(pairs, 3, "video_height"@, Json::Null);
    lemma_says(pairs, 4, "palette_only"@, Json::Null);
    lemma_says(pairs, 5, "palette_id"@, Json::Null);
    lemma_says(pairs, 6, "objects"@, Json::Null);
    lemma_says(pairs, 7, "payload"@, Json::Str(base64_text(s.payload)));
}

proof fn lemma_unread_object(s: SegmentView, objects: Seq<ObjectView>)
    requires
        s.segment_type is ObjectDefinition,
        ods_parsed(s.payload) is None,
    ensures
        ({
            let more = with_segment(objects, s, true);
            let j = object_tree(more.last(), true);
            &&& with_segment(objects, s, false) == objects
            &&& more.len() == objects.len() + 1
            &&& more.drop_last() == objects
            &&& says(j, "id"@, Json::Null)
            &&& says(j, "version"@, Json::Null)
            &&& says(j, "sequence"@, Json::Null)
            &&& says(j, "data_length"@, Json::Null)
            &&& says(j, "width"@, Json::Null)
            &&& says(j, "height"@, Json::Null)
            &&& says(j, "bitmap"@, Json::Null)
            &&& says(j, "payload"@, Json::Str(base64_text(s.payload)))
        }),
{
    lemma_keys();
    lemma_more_keys();
    let more = with_segment(objects, s, true);
    assert(more.drop_last() =~= objects);
    let pairs = object_tree(more.last(), true)->Object_0;
    lemma_says(pairs, 0, "id"@, Json::Null);
    lemma_says(pairs, 1, "version"@, Json::Null);
    lemma_says(pairs, 2, "sequence"@, Json::Null);
    lemma_says(pairs, 3, "data_length"@, Json::Null);
    lemma_says(pairs, 4, "width"@, Json::Null);
    lemma_says(pairs, 5, "height"@, Json::Null);
    lemma_says(pairs, 6, "bitmap"@, Json::Null);
    lemma_says(pairs, 7, "payload"@, Json::Str(base64_text(s.payload)));
}

} // verus!
