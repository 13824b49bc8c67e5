//! Reading the lines of progress back: what a program that watches a run finds in
//! them.

use vstd::prelude::*;
use vstd::string::*;

use crate::json;
use crate::json_reading;
use crate::text;

use super::lines;
use super::lines::EmitterTotals;
use super::ProgressEvent;

verus! {

/// The members of the object.
spec fn started_fields(v0: Seq<char>, v1: Seq<char>, v2: Seq<char>, v3: Seq<char>,
    v4: Seq<char>) -> Seq<(Seq<char>, Seq<char>)> {
    seq![("type"@, (seq!['"'] + "started"@ + seq!['"']))].push(("total_files"@, v0))
        .push(("total_bytes"@, v1)).push(("total_segments"@, v2)).push(("connections"@, v3))
        .push(("target"@, v4))
}

proof fn lemma_started_fields(v0: Seq<char>, v1: Seq<char>, v2: Seq<char>, v3: Seq<char>,
    v4: Seq<char>)
    requires
        json_reading::is_value(v0),
        json_reading::is_value(v1),
        json_reading::is_value(v2),
        json_reading::is_value(v3),
        json_reading::is_value(v4),
    ensures
        json_reading::well_formed(started_fields(v0, v1, v2, v3, v4)),
        json_reading::literal((seq!['"'] + "started"@ + seq!['"'])) == Some("started"@),
{
    reveal_strlit("type");
    reveal_strlit("total_files");
    reveal_strlit("total_bytes");
    reveal_strlit("total_segments");
    reveal_strlit("connections");
    reveal_strlit("target");
    reveal_strlit("started");
    assert("type"@.len() == 4 && "type"@[0] == 't');
    assert("total_files"@.len() == 11 && "total_files"@[0] == 't' && "total_files"@[6] == 'f');
    assert("total_bytes"@.len() == 11 && "total_bytes"@[0] == 't' && "total_bytes"@[6] == 'b');
    assert("total_segments"@.len() == 14 && "total_segments"@[0] == 't');
    assert("connections"@.len() == 11 && "connections"@[0] == 'c');
    assert("target"@.len() == 6 && "target"@[0] == 't');
    json_reading::lemma_plain_quoted("started"@);
    json_reading::lemma_literal("started"@);
    let f1 = seq![("type"@, (seq!['"'] + "started"@ + seq!['"']))];
    assert(json_reading::well_formed(f1));
    json_reading::lemma_well_formed(f1, "total_files"@, v0);
    let f2 = f1.push(("total_files"@, v0));
    json_reading::lemma_well_formed(f2, "total_bytes"@, v1);
    let f3 = f2.push(("total_bytes"@, v1));
    json_reading::lemma_well_formed(f3, "total_segments"@, v2);
    let f4 = f3.push(("total_segments"@, v2));
    json_reading::lemma_well_formed(f4, "connections"@, v3);
    let f5 = f4.push(("connections"@, v3));
    json_reading::lemma_well_formed(f5, "target"@, v4);
    let f6 = f5.push(("target"@, v4));
}

#[verifier::rlimit(40)]
proof fn lemma_started_text(v0: Seq<char>, v1: Seq<char>, v2: Seq<char>, v3: Seq<char>,
    v4: Seq<char>)
    ensures
        "{\"type\":\"started\",\"total_files\":"@ + v0 + ",\"total_bytes\":"@ + v1
            + ",\"total_segments\":"@ + v2 + ",\"connections\":"@ + v3 + ",\"target\":"@ + v4 + "}"@
            == json_reading::opened(started_fields(v0, v1, v2, v3, v4)) + seq!['}'],
{
    reveal_strlit("type");
    reveal_strlit("total_files");
    reveal_strlit("total_bytes");
    reveal_strlit("total_segments");
    reveal_strlit("connections");
    reveal_strlit("target");
    reveal_strlit("started");
    reveal_strlit("{\"type\":\"started\",\"total_files\":");
    reveal_strlit(",\"total_bytes\":");
    reveal_strlit(",\"total_segments\":");
    reveal_strlit(",\"connections\":");
    reveal_strlit(",\"target\":");
    reveal_strlit("}");
    let q = seq!['"'];
    let f1 = seq![("type"@, (seq!['"'] + "started"@ + seq!['"']))];
    json_reading::lemma_opened_first("type"@, (seq!['"'] + "started"@ + seq!['"']));
    let f2 = f1.push(("total_files"@, v0));
    json_reading::lemma_opened(f1, "total_files"@, v0);
    let f3 = f2.push(("total_bytes"@, v1));
    json_reading::lemma_opened(f2, "total_bytes"@, v1);
    let f4 = f3.push(("total_segments"@, v2));
    json_reading::lemma_opened(f3, "total_segments"@, v2);
    let f5 = f4.push(("connections"@, v3));
    json_reading::lemma_opened(f4, "connections"@, v3);
    let f6 = f5.push(("target"@, v4));
    json_reading::lemma_opened(f5, "target"@, v4);
    assert("{\"type\":\"started\",\"total_files\":"@ =~= json_reading::opened(f1)
        + json_reading::label("total_files"@));
    assert(",\"total_bytes\":"@ =~= json_reading::label("total_bytes"@));
    assert(",\"total_segments\":"@ =~= json_reading::label("total_segments"@));
    assert(",\"connections\":"@ =~= json_reading::label("connections"@));
    assert(",\"target\":"@ =~= json_reading::label("target"@));
    assert("}"@ =~= seq!['}']);
}

/// The members of the object.
spec fn done_fields(e0: Seq<char>, v1: Seq<char>, v2: Seq<char>, v3: Seq<char>, v4: Seq<char>,
    v5: Seq<char>, v6: Seq<char>, v7: Seq<char>) -> Seq<(Seq<char>, Seq<char>)> {
    seq![("type"@, (seq!['"'] + "segment_done"@ + seq!['"']))].push(("file"@, (seq!['"'] + e0
        + seq!['"']))).push(("bytes"@, v1)).push(("ok"@, v2)).push(("done_segments"@, v3))
        .push(("total_segments"@, v4)).push(("done_bytes"@, v5)).push(("total_bytes"@, v6))
        .push(("progress_pct"@, v7))
}

#[verifier::rlimit(40)]
proof fn lemma_done_fields(e0: Seq<char>, v1: Seq<char>, v2: Seq<char>, v3: Seq<char>,
    v4: Seq<char>, v5: Seq<char>, v6: Seq<char>, v7: Seq<char>)
    requires
        json_reading::is_value(seq!['"'] + e0 + seq!['"']),
        json_reading::is_value(v1),
        json_reading::is_value(v2),
        json_reading::is_value(v3),
        json_reading::is_value(v4),
        json_reading::is_value(v5),
        json_reading::is_value(v6),
        json_reading::is_value(v7),
    ensures
        json_reading::well_formed(done_fields(e0, v1, v2, v3, v4, v5, v6, v7)),
        json_reading::literal((seq!['"'] + "segment_done"@ + seq!['"'])) == Some("segment_done"@),
{
    reveal_strlit("type");
    reveal_strlit("file");
    reveal_strlit("bytes");
    reveal_strlit("ok");
    reveal_strlit("done_segments");
    reveal_strlit("total_segments");
    reveal_strlit("done_bytes");
    reveal_strlit("total_bytes");
    reveal_strlit("progress_pct");
    reveal_strlit("segment_done");
    assert("type"@.len() == 4 && "type"@[0] == 't');
    assert("file"@.len() == 4 && "file"@[0] == 'f');
    assert("bytes"@.len() == 5 && "bytes"@[0] == 'b');
    assert("ok"@.len() == 2 && "ok"@[0] == 'o');
    assert("done_segments"@.len() == 13 && "done_segments"@[0] == 'd');
    assert("total_segments"@.len() == 14 && "total_segments"@[0] == 't');
    assert("done_bytes"@.len() == 10 && "done_bytes"@[0] == 'd');
    assert("total_bytes"@.len() == 11 && "total_bytes"@[0] == 't');
    assert("progress_pct"@.len() == 12 && "progress_pct"@[0] == 'p');
    json_reading::lemma_plain_quoted("segment_done"@);
    json_reading::lemma_literal("segment_done"@);
    let f1 = seq![("type"@, (seq!['"'] + "segment_done"@ + seq!['"']))];
    assert(json_reading::well_formed(f1));
    json_reading::lemma_well_formed(f1, "file"@, (seq!['"'] + e0 + seq!['"']));
    let f2 = f1.push(("file"@, (seq!['"'] + e0 + seq!['"'])));
    json_reading::lemma_well_formed(f2, "bytes"@, v1);
    let f3 = f2.push(("bytes"@, v1));
    json_reading::lemma_well_formed(f3, "ok"@, v2);
    let f4 = f3.push(("ok"@, v2));
    json_reading::lemma_well_formed(f4, "done_segments"@, v3);
    let f5 = f4.push(("done_segments"@, v3));
    json_reading::lemma_well_formed(f5, "total_segments"@, v4);
    let f6 = f5.push(("total_segments"@, v4));
    json_reading::lemma_well_formed(f6, "done_bytes"@, v5);
    let f7 = f6.push(("done_bytes"@, v5));
    json_reading::lemma_well_formed(f7, "total_bytes"@, v6);
    let f8 = f7.push(("total_bytes"@, v6));
    json_reading::lemma_well_formed(f8, "progress_pct"@, v7);
    let f9 = f8.push(("progress_pct"@, v7));
}

#[verifier::rlimit(40)]
proof fn lemma_done_text(e0: Seq<char>, v1: Seq<char>, v2: Seq<char>, v3: Seq<char>, v4: Seq<char>,
    v5: Seq<char>, v6: Seq<char>, v7: Seq<char>)
    ensures
        "{\"type\":\"segment_done\",\"file\":\""@ + e0 + "\",\"bytes\":"@ + v1 + ",\"ok\":"@ + v2
            + ",\"done_segments\":"@ + v3 + ",\"total_segments\":"@ + v4 + ",\"done_bytes\":"@ + v5
            + ",\"total_bytes\":"@ + v6 + ",\"progress_pct\":"@ + v7 + "}"@
            == json_reading::opened(done_fields(e0, v1, v2, v3, v4, v5, v6, v7)) + seq!['}'],
{
    reveal_strlit("type");
    reveal_strlit("file");
    reveal_strlit("bytes");
    reveal_strlit("ok");
    reveal_strlit("done_segments");
    reveal_strlit("total_segments");
    reveal_strlit("done_bytes");
    reveal_strlit("total_bytes");
    reveal_strlit("progress_pct");
    reveal_strlit("segment_done");
    reveal_strlit("{\"type\":\"segment_done\",\"file\":\"");
    reveal_strlit("\",\"bytes\":");
    reveal_strlit(",\"ok\":");
    reveal_strlit(",\"done_segments\":");
    reveal_strlit(",\"total_segments\":");
    reveal_strlit(",\"done_bytes\":");
    reveal_strlit(",\"total_bytes\":");
    reveal_strlit(",\"progress_pct\":");
    reveal_strlit("}");
    let q = seq!['"'];
    let f1 = seq![("type"@, (seq!['"'] + "segment_done"@ + seq!['"']))];
    json_reading::lemma_opened_first("type"@, (seq!['"'] + "segment_done"@ + seq!['"']));
    let f2 = f1.push(("file"@, (seq!['"'] + e0 + seq!['"'])));
    json_reading::lemma_opened(f1, "file"@, (seq!['"'] + e0 + seq!['"']));
    let f3 = f2.push(("bytes"@, v1));
    json_reading::lemma_opened(f2, "bytes"@, v1);
    let f4 = f3.push(("ok"@, v2));
    json_reading::lemma_opened(f3, "ok"@, v2);
    let f5 = f4.push(("done_segments"@, v3));
    json_reading::lemma_opened(f4, "done_segments"@, v3);
    let f6 = f5.push(("total_segments"@, v4));
    json_reading::lemma_opened(f5, "total_segments"@, v4);
    let f7 = f6.push(("done_bytes"@, v5));
    json_reading::lemma_opened(f6, "done_bytes"@, v5);
    let f8 = f7.push(("total_bytes"@, v6));
    json_reading::lemma_opened(f7, "total_bytes"@, v6);
    let f9 = f8.push(("progress_pct"@, v7));
    json_reading::lemma_opened(f8, "progress_pct"@, v7);
    assert("{\"type\":\"segment_done\",\"file\":\""@ =~= json_reading::opened(f1)
        + json_reading::label("file"@) + q);
    assert("\",\"bytes\":"@ =~= q + json_reading::label("bytes"@));
    assert(",\"ok\":"@ =~= json_reading::label("ok"@));
    assert(",\"done_segments\":"@ =~= json_reading::label("done_segments"@));
    assert(",\"total_segments\":"@ =~= json_reading::label("total_segments"@));
    assert(",\"done_bytes\":"@ =~= json_reading::label("done_bytes"@));
    assert(",\"total_bytes\":"@ =~= json_reading::label("total_bytes"@));
    assert(",\"progress_pct\":"@ =~= json_reading::label("progress_pct"@));
    assert("}"@ =~= seq!['}']);
    json_reading::lemma_joins(json_reading::opened(f1) + json_reading::label("file"@), e0,
        json_reading::label("bytes"@));
}

/// The members of the object.
spec fn extended_fields(e0: Seq<char>, v1: Seq<char>, v2: Seq<char>, v3: Seq<char>,
    v4: Seq<char>) -> Seq<(Seq<char>, Seq<char>)> {
    seq![("type"@, (seq!['"'] + "queue_extended"@ + seq!['"']))].push(("file"@, (seq!['"'] + e0
        + seq!['"']))).push(("segments"@, v1)).push(("bytes"@, v2)).push(("total_segments"@, v3))
        .push(("total_bytes"@, v4))
}

proof fn lemma_extended_fields(e0: Seq<char>, v1: Seq<char>, v2: Seq<char>, v3: Seq<char>,
    v4: Seq<char>)
    requires
        json_reading::is_value(seq!['"'] + e0 + seq!['"']),
        json_reading::is_value(v1),
        json_reading::is_value(v2),
        json_reading::is_value(v3),
        json_reading::is_value(v4),
    ensures
        json_reading::well_formed(extended_fields(e0, v1, v2, v3, v4)),
        json_reading::literal((seq!['"'] + "queue_extended"@ + seq!['"']))
            == Some("queue_extended"@),
{
    reveal_strlit("type");
    reveal_strlit("file");
    reveal_strlit("segments");
    reveal_strlit("bytes");
    reveal_strlit("total_segments");
    reveal_strlit("total_bytes");
    reveal_strlit("queue_extended");
    assert("type"@.len() == 4 && "type"@[0] == 't');
    assert("file"@.len() == 4 && "file"@[0] == 'f');
    assert("segments"@.len() == 8 && "segments"@[0] == 's');
    assert("bytes"@.len() == 5 && "bytes"@[0] == 'b');
    assert("total_segments"@.len() == 14 && "total_segments"@[0] == 't');
    assert("total_bytes"@.len() == 11 && "total_bytes"@[0] == 't');
    json_reading::lemma_plain_quoted("queue_extended"@);
    json_reading::lemma_literal("queue_extended"@);
    let f1 = seq![("type"@, (seq!['"'] + "queue_extended"@ + seq!['"']))];
    assert(json_reading::well_formed(f1));
    json_reading::lemma_well_formed(f1, "file"@, (seq!['"'] + e0 + seq!['"']));
    let f2 = f1.push(("file"@, (seq!['"'] + e0 + seq!['"'])));
    json_reading::lemma_well_formed(f2, "segments"@, v1);
    let f3 = f2.push(("segments"@, v1));
    json_reading::lemma_well_formed(f3, "bytes"@, v2);
    let f4 = f3.push(("bytes"@, v2));
    json_reading::lemma_well_formed(f4, "total_segments"@, v3);
    let f5 = f4.push(("total_segments"@, v3));
    json_reading::lemma_well_formed(f5, "total_bytes"@, v4);
    let f6 = f5.push(("total_bytes"@, v4));
}

#[verifier::rlimit(40)]
proof fn lemma_extended_text(e0: Seq<char>, v1: Seq<char>, v2: Seq<char>, v3: Seq<char>,
    v4: Seq<char>)
    ensures
        "{\"type\":\"queue_extended\",\"file\":\""@ + e0 + "\",\"segments\":"@ + v1 + ",\"bytes\":"@
            + v2 + ",\"total_segments\":"@ + v3 + ",\"total_bytes\":"@ + v4 + "}"@
            == json_reading::opened(extended_fields(e0, v1, v2, v3, v4)) + seq!['}'],
{
    reveal_strlit("type");
    reveal_strlit("file");
    reveal_strlit("segments");
    reveal_strlit("bytes");
    reveal_strlit("total_segments");
    reveal_strlit("total_bytes");
    reveal_strlit("queue_extended");
    reveal_strlit("{\"type\":\"queue_extended\",\"file\":\"");
    reveal_strlit("\",\"segments\":");
    reveal_strlit(",\"bytes\":");
    reveal_strlit(",\"total_segments\":");
    reveal_strlit(",\"total_bytes\":");
    reveal_strlit("}");
    let q = seq!['"'];
    let f1 = seq![("type"@, (seq!['"'] + "queue_extended"@ + seq!['"']))];
    json_reading::lemma_opened_first("type"@, (seq!['"'] + "queue_extended"@ + seq!['"']));
    let f2 = f1.push(("file"@, (seq!['"'] + e0 + seq!['"'])));
    json_reading::lemma_opened(f1, "file"@, (seq!['"'] + e0 + seq!['"']));
    let f3 = f2.push(("segments"@, v1));
    json_reading::lemma_opened(f2, "segments"@, v1);
    let f4 = f3.push(("bytes"@, v2));
    json_reading::lemma_opened(f3, "bytes"@, v2);
    let f5 = f4.push(("total_segments"@, v3));
    json_reading::lemma_opened(f4, "total_segments"@, v3);
    let f6 = f5.push(("total_bytes"@, v4));
    json_reading::lemma_opened(f5, "total_bytes"@, v4);
    assert("{\"type\":\"queue_extended\",\"file\":\""@ =~= json_reading::opened(f1)
        + json_reading::label("file"@) + q);
    assert("\",\"segments\":"@ =~= q + json_reading::label("segments"@));
    assert(",\"bytes\":"@ =~= json_reading::label("bytes"@));
    assert(",\"total_segments\":"@ =~= json_reading::label("total_segments"@));
    assert(",\"total_bytes\":"@ =~= json_reading::label("total_bytes"@));
    assert("}"@ =~= seq!['}']);
    json_reading::lemma_joins(json_reading::opened(f1) + json_reading::label("file"@), e0,
        json_reading::label("segments"@));
}

/// The members of the object.
spec fn status_fields(e0: Seq<char>) -> Seq<(Seq<char>, Seq<char>)> {
    seq![("type"@, (seq!['"'] + "status"@ + seq!['"']))].push(("text"@, (seq!['"'] + e0
        + seq!['"'])))
}

proof fn lemma_status_fields(e0: Seq<char>)
    requires
        json_reading::is_value(seq!['"'] + e0 + seq!['"']),
    ensures
        json_reading::well_formed(status_fields(e0)),
        json_reading::literal((seq!['"'] + "status"@ + seq!['"'])) == Some("status"@),
{
    reveal_strlit("type");
    reveal_strlit("text");
    reveal_strlit("status");
    assert("type"@.len() == 4 && "type"@[0] == 't' && "type"@[1] == 'y');
    assert("text"@.len() == 4 && "text"@[0] == 't' && "text"@[1] == 'e');
    json_reading::lemma_plain_quoted("status"@);
    json_reading::lemma_literal("status"@);
    let f1 = seq![("type"@, (seq!['"'] + "status"@ + seq!['"']))];
    assert(json_reading::well_formed(f1));
    json_reading::lemma_well_formed(f1, "text"@, (seq!['"'] + e0 + seq!['"']));
    let f2 = f1.push(("text"@, (seq!['"'] + e0 + seq!['"'])));
}

proof fn lemma_status_text(e0: Seq<char>)
    ensures
        "{\"type\":\"status\",\"text\":\""@ + e0 + "\"}"@ == json_reading::opened(status_fields(e0))
            + seq!['}'],
{
    reveal_strlit("type");
    reveal_strlit("text");
    reveal_strlit("status");
    reveal_strlit("{\"type\":\"status\",\"text\":\"");
    reveal_strlit("\"}");
    let q = seq!['"'];
    let f1 = seq![("type"@, (seq!['"'] + "status"@ + seq!['"']))];
    json_reading::lemma_opened_first("type"@, (seq!['"'] + "status"@ + seq!['"']));
    let f2 = f1.push(("text"@, (seq!['"'] + e0 + seq!['"'])));
    json_reading::lemma_opened(f1, "text"@, (seq!['"'] + e0 + seq!['"']));
    assert("{\"type\":\"status\",\"text\":\""@ =~= json_reading::opened(f1)
        + json_reading::label("text"@) + q);
    assert("\"}"@ =~= q + seq!['}']);
    json_reading::lemma_joins(json_reading::opened(f1) + json_reading::label("text"@), e0,
        seq!['}']);
}

/// The members of the object.
spec fn failed_fields(e0: Seq<char>) -> Seq<(Seq<char>, Seq<char>)> {
    seq![("type"@, (seq!['"'] + "failed"@ + seq!['"']))].push(("description"@, (seq!['"'] + e0
        + seq!['"'])))
}

proof fn lemma_failed_fields(e0: Seq<char>)
    requires
        json_reading::is_value(seq!['"'] + e0 + seq!['"']),
    ensures
        json_reading::well_formed(failed_fields(e0)),
        json_reading::literal((seq!['"'] + "failed"@ + seq!['"'])) == Some("failed"@),
{
    reveal_strlit("type");
    reveal_strlit("description");
    reveal_strlit("failed");
    assert("type"@.len() == 4 && "type"@[0] == 't');
    assert("description"@.len() == 11 && "description"@[0] == 'd');
    json_reading::lemma_plain_quoted("failed"@);
    json_reading::lemma_literal("failed"@);
    let f1 = seq![("type"@, (seq!['"'] + "failed"@ + seq!['"']))];
    assert(json_reading::well_formed(f1));
    json_reading::lemma_well_formed(f1, "description"@, (seq!['"'] + e0 + seq!['"']));
    let f2 = f1.push(("description"@, (seq!['"'] + e0 + seq!['"'])));
}

proof fn lemma_failed_text(e0: Seq<char>)
    ensures
        "{\"type\":\"failed\",\"description\":\""@ + e0 + "\"}"@
            == json_reading::opened(failed_fields(e0)) + seq!['}'],
{
    reveal_strlit("type");
    reveal_strlit("description");
    reveal_strlit("failed");
    reveal_strlit("{\"type\":\"failed\",\"description\":\"");
    reveal_strlit("\"}");
    let q = seq!['"'];
    let f1 = seq![("type"@, (seq!['"'] + "failed"@ + seq!['"']))];
    json_reading::lemma_opened_first("type"@, (seq!['"'] + "failed"@ + seq!['"']));
    let f2 = f1.push(("description"@, (seq!['"'] + e0 + seq!['"'])));
    json_reading::lemma_opened(f1, "description"@, (seq!['"'] + e0 + seq!['"']));
    assert("{\"type\":\"failed\",\"description\":\""@ =~= json_reading::opened(f1)
        + json_reading::label("description"@) + q);
    assert("\"}"@ =~= q + seq!['}']);
    json_reading::lemma_joins(json_reading::opened(f1) + json_reading::label("description"@), e0,
        seq!['}']);
}

/// The members of the object.
spec fn packing_fields(v0: Seq<char>) -> Seq<(Seq<char>, Seq<char>)> {
    seq![("type"@, (seq!['"'] + "compress_started"@ + seq!['"']))].push(("total_bytes"@, v0))
}

proof fn lemma_packing_fields(v0: Seq<char>)
    requires
        json_reading::is_value(v0),
    ensures
        json_reading::well_formed(packing_fields(v0)),
        json_reading::literal((seq!['"'] + "compress_started"@ + seq!['"']))
            == Some("compress_started"@),
{
    reveal_strlit("type");
    reveal_strlit("total_bytes");
    reveal_strlit("compress_started");
    assert("type"@.len() == 4 && "type"@[0] == 't');
    assert("total_bytes"@.len() == 11 && "total_bytes"@[0] == 't');
    json_reading::lemma_plain_quoted("compress_started"@);
    json_reading::lemma_literal("compress_started"@);
    let f1 = seq![("type"@, (seq!['"'] + "compress_started"@ + seq!['"']))];
    assert(json_reading::well_formed(f1));
    json_reading::lemma_well_formed(f1, "total_bytes"@, v0);
    let f2 = f1.push(("total_bytes"@, v0));
}

proof fn lemma_packing_text(v0: Seq<char>)
    ensures
        "{\"type\":\"compress_started\",\"total_bytes\":"@ + v0 + "}"@
            == json_reading::opened(packing_fields(v0)) + seq!['}'],
{
    reveal_strlit("type");
    reveal_strlit("total_bytes");
    reveal_strlit("compress_started");
    reveal_strlit("{\"type\":\"compress_started\",\"total_bytes\":");
    reveal_strlit("}");
    let q = seq!['"'];
    let f1 = seq![("type"@, (seq!['"'] + "compress_started"@ + seq!['"']))];
    json_reading::lemma_opened_first("type"@, (seq!['"'] + "compress_started"@ + seq!['"']));
    let f2 = f1.push(("total_bytes"@, v0));
    json_reading::lemma_opened(f1, "total_bytes"@, v0);
    assert("{\"type\":\"compress_started\",\"total_bytes\":"@ =~= json_reading::opened(f1)
        + json_reading::label("total_bytes"@));
    assert("}"@ =~= seq!['}']);
}

/// The members of the object.
spec fn packed_fields(v0: Seq<char>) -> Seq<(Seq<char>, Seq<char>)> {
    seq![("type"@, (seq!['"'] + "compress_progress"@ + seq!['"']))].push(("bytes_written"@, v0))
}

proof fn lemma_packed_fields(v0: Seq<char>)
    requires
        json_reading::is_value(v0),
    ensures
        json_reading::well_formed(packed_fields(v0)),
        json_reading::literal((seq!['"'] + "compress_progress"@ + seq!['"']))
            == Some("compress_progress"@),
{
    reveal_strlit("type");
    reveal_strlit("bytes_written");
    reveal_strlit("compress_progress");
    assert("type"@.len() == 4 && "type"@[0] == 't');
    assert("bytes_written"@.len() == 13 && "bytes_written"@[0] == 'b');
    json_reading::lemma_plain_quoted("compress_progress"@);
    json_reading::lemma_literal("compress_progress"@);
    let f1 = seq![("type"@, (seq!['"'] + "compress_progress"@ + seq!['"']))];
    assert(json_reading::well_formed(f1));
    json_reading::lemma_well_formed(f1, "bytes_written"@, v0);
    let f2 = f1.push(("bytes_written"@, v0));
}

proof fn lemma_packed_text(v0: Seq<char>)
    ensures
        "{\"type\":\"compress_progress\",\"bytes_written\":"@ + v0 + "}"@
            == json_reading::opened(packed_fields(v0)) + seq!['}'],
{
    reveal_strlit("type");
    reveal_strlit("bytes_written");
    reveal_strlit("compress_progress");
    reveal_strlit("{\"type\":\"compress_progress\",\"bytes_written\":");
    reveal_strlit("}");
    let q = seq!['"'];
    let f1 = seq![("type"@, (seq!['"'] + "compress_progress"@ + seq!['"']))];
    json_reading::lemma_opened_first("type"@, (seq!['"'] + "compress_progress"@ + seq!['"']));
    let f2 = f1.push(("bytes_written"@, v0));
    json_reading::lemma_opened(f1, "bytes_written"@, v0);
    assert("{\"type\":\"compress_progress\",\"bytes_written\":"@ =~= json_reading::opened(f1)
        + json_reading::label("bytes_written"@));
    assert("}"@ =~= seq!['}']);
}

/// The members of the object.
spec fn writing_fields(v0: Seq<char>) -> Seq<(Seq<char>, Seq<char>)> {
    seq![("type"@, (seq!['"'] + "par2_write_started"@ + seq!['"']))].push(("total"@, v0))
}

proof fn lemma_writing_fields(v0: Seq<char>)
    requires
        json_reading::is_value(v0),
    ensures
        json_reading::well_formed(writing_fields(v0)),
        json_reading::literal((seq!['"'] + "par2_write_started"@ + seq!['"']))
            == Some("par2_write_started"@),
{
    reveal_strlit("type");
    reveal_strlit("total");
    reveal_strlit("par2_write_started");
    assert("type"@.len() == 4 && "type"@[0] == 't');
    assert("total"@.len() == 5 && "total"@[0] == 't');
    json_reading::lemma_plain_quoted("par2_write_started"@);
    json_reading::lemma_literal("par2_write_started"@);
    let f1 = seq![("type"@, (seq!['"'] + "par2_write_started"@ + seq!['"']))];
    assert(json_reading::well_formed(f1));
    json_reading::lemma_well_formed(f1, "total"@, v0);
    let f2 = f1.push(("total"@, v0));
}

proof fn lemma_writing_text(v0: Seq<char>)
    ensures
        "{\"type\":\"par2_write_started\",\"total\":"@ + v0 + "}"@
            == json_reading::opened(writing_fields(v0)) + seq!['}'],
{
    reveal_strlit("type");
    reveal_strlit("total");
    reveal_strlit("par2_write_started");
    reveal_strlit("{\"type\":\"par2_write_started\",\"total\":");
    reveal_strlit("}");
    let q = seq!['"'];
    let f1 = seq![("type"@, (seq!['"'] + "par2_write_started"@ + seq!['"']))];
    json_reading::lemma_opened_first("type"@, (seq!['"'] + "par2_write_started"@ + seq!['"']));
    let f2 = f1.push(("total"@, v0));
    json_reading::lemma_opened(f1, "total"@, v0);
    assert("{\"type\":\"par2_write_started\",\"total\":"@ =~= json_reading::opened(f1)
        + json_reading::label("total"@));
    assert("}"@ =~= seq!['}']);
}

/// The members of the object.
spec fn end_fields(v0: Seq<char>, v1: Seq<char>, v2: Seq<char>, v3: Seq<char>) -> Seq<(Seq<char>,
    Seq<char>)> {
    seq![("type"@, (seq!['"'] + "finished"@ + seq!['"']))].push(("segments"@, v0))
        .push(("failures"@, v1)).push(("progress_pct"@, v2)).push(("ok"@, v3))
}

proof fn lemma_end_fields(v0: Seq<char>, v1: Seq<char>, v2: Seq<char>, v3: Seq<char>)
    requires
        json_reading::is_value(v0),
        json_reading::is_value(v1),
        json_reading::is_value(v2),
        json_reading::is_value(v3),
    ensures
        json_reading::well_formed(end_fields(v0, v1, v2, v3)),
        json_reading::literal((seq!['"'] + "finished"@ + seq!['"'])) == Some("finished"@),
{
    reveal_strlit("type");
    reveal_strlit("segments");
    reveal_strlit("failures");
    reveal_strlit("progress_pct");
    reveal_strlit("ok");
    reveal_strlit("finished");
    assert("type"@.len() == 4 && "type"@[0] == 't');
    assert("segments"@.len() == 8 && "segments"@[0] == 's');
    assert("failures"@.len() == 8 && "failures"@[0] == 'f');
    assert("progress_pct"@.len() == 12 && "progress_pct"@[0] == 'p');
    assert("ok"@.len() == 2 && "ok"@[0] == 'o');
    json_reading::lemma_plain_quoted("finished"@);
    json_reading::lemma_literal("finished"@);
    let f1 = seq![("type"@, (seq!['"'] + "finished"@ + seq!['"']))];
    assert(json_reading::well_formed(f1));
    json_reading::lemma_well_formed(f1, "segments"@, v0);
    let f2 = f1.push(("segments"@, v0));
    json_reading::lemma_well_formed(f2, "failures"@, v1);
    let f3 = f2.push(("failures"@, v1));
    json_reading::lemma_well_formed(f3, "progress_pct"@, v2);
    let f4 = f3.push(("progress_pct"@, v2));
    json_reading::lemma_well_formed(f4, "ok"@, v3);
    let f5 = f4.push(("ok"@, v3));
}

proof fn lemma_end_text(v0: Seq<char>, v1: Seq<char>, v2: Seq<char>, v3: Seq<char>)
    ensures
        "{\"type\":\"finished\",\"segments\":"@ + v0 + ",\"failures\":"@ + v1
            + ",\"progress_pct\":"@ + v2 + ",\"ok\":"@ + v3 + "}"@
            == json_reading::opened(end_fields(v0, v1, v2, v3)) + seq!['}'],
{
    reveal_strlit("type");
    reveal_strlit("segments");
    reveal_strlit("failures");
    reveal_strlit("progress_pct");
    reveal_strlit("ok");
    reveal_strlit("finished");
    reveal_strlit("{\"type\":\"finished\",\"segments\":");
    reveal_strlit(",\"failures\":");
    reveal_strlit(",\"progress_pct\":");
    reveal_strlit(",\"ok\":");
    reveal_strlit("}");
    let q = seq!['"'];
    let f1 = seq![("type"@, (seq!['"'] + "finished"@ + seq!['"']))];
    json_reading::lemma_opened_first("type"@, (seq!['"'] + "finished"@ + seq!['"']));
    let f2 = f1.push(("segments"@, v0));
    json_reading::lemma_opened(f1, "segments"@, v0);
    let f3 = f2.push(("failures"@, v1));
    json_reading::lemma_opened(f2, "failures"@, v1);
    let f4 = f3.push(("progress_pct"@, v2));
    json_reading::lemma_opened(f3, "progress_pct"@, v2);
    let f5 = f4.push(("ok"@, v3));
    json_reading::lemma_opened(f4, "ok"@, v3);
    assert("{\"type\":\"finished\",\"segments\":"@ =~= json_reading::opened(f1)
        + json_reading::label("segments"@));
    assert(",\"failures\":"@ =~= json_reading::label("failures"@));
    assert(",\"progress_pct\":"@ =~= json_reading::label("progress_pct"@));
    assert(",\"ok\":"@ =~= json_reading::label("ok"@));
    assert("}"@ =~= seq!['}']);
}

/// The kind of an event, as its line names it.
pub open spec fn type_of(line: Seq<char>) -> Option<Seq<char>> {
    json_reading::text_member(line, "type"@)
}

/// A member that is true or false.
pub open spec fn says(line: Seq<char>, key: Seq<char>, b: bool) -> bool {
    json_reading::raw(line, key) == Some(
        if b {
            "true"@
        } else {
            "false"@
        },
    )
}

/// A member with a number.
pub open spec fn counts(line: Seq<char>, key: Seq<char>, n: nat) -> bool {
    json_reading::number_member(line, key) == Some(n)
}

/// A program that watches a run finds in the line of an event what the event says,
/// and the totals with it counted.
pub open spec fn line_tells(
    line: Seq<char>,
    t: EmitterTotals,
    ev: ProgressEvent,
    percent: Seq<char>,
) -> bool {
    match ev {
        ProgressEvent::Started { files, connections, target, .. } => {
            &&& type_of(line) == Some("started"@)
            &&& counts(line, "total_files"@, files@.len())
            &&& counts(line, "total_bytes"@, t.total_bytes as nat)
            &&& counts(line, "total_segments"@, t.total_segments as nat)
            &&& counts(line, "connections"@, connections as nat)
            &&& match target {
                Some(s) => json_reading::text_member(line, "target"@) == Some(s@),
                None => json_reading::raw(line, "target"@) == Some("null"@),
            }
        },
        ProgressEvent::SegmentDone { file, bytes, ok } => {
            &&& type_of(line) == Some("segment_done"@)
            &&& json_reading::text_member(line, "file"@) == Some(file@)
            &&& counts(line, "bytes"@, bytes as nat)
            &&& says(line, "ok"@, ok)
            &&& counts(line, "done_segments"@, t.done_segments as nat)
            &&& counts(line, "total_segments"@, t.total_segments as nat)
            &&& counts(line, "done_bytes"@, t.done_bytes as nat)
            &&& counts(line, "total_bytes"@, t.total_bytes as nat)
            &&& json_reading::raw(line, "progress_pct"@) == Some(percent)
        },
        ProgressEvent::QueueExtended { file, segments, bytes } => {
            &&& type_of(line) == Some("queue_extended"@)
            &&& json_reading::text_member(line, "file"@) == Some(file@)
            &&& counts(line, "segments"@, segments as nat)
            &&& counts(line, "bytes"@, bytes as nat)
            &&& counts(line, "total_segments"@, t.total_segments as nat)
            &&& counts(line, "total_bytes"@, t.total_bytes as nat)
        },
        ProgressEvent::Status { text } => {
            &&& type_of(line) == Some("status"@)
            &&& json_reading::text_member(line, "text"@) == Some(text@)
        },
        ProgressEvent::Failed { description } => {
            &&& type_of(line) == Some("failed"@)
            &&& json_reading::text_member(line, "description"@) == Some(description@)
        },
        ProgressEvent::CompressStarted { total_bytes } => {
            &&& type_of(line) == Some("compress_started"@)
            &&& counts(line, "total_bytes"@, total_bytes as nat)
        },
        ProgressEvent::CompressProgress { bytes_written } => {
            &&& type_of(line) == Some("compress_progress"@)
            &&& counts(line, "bytes_written"@, bytes_written as nat)
        },
        ProgressEvent::Par2WriteStarted { total } => {
            &&& type_of(line) == Some("par2_write_started"@)
            &&& counts(line, "total"@, total as nat)
        },
        _ => true,
    }
}

proof fn lemma_inline(s: Seq<char>)
    ensures
        json_reading::is_value(seq!['"'] + json::json_escaped(s) + seq!['"']),
        json_reading::literal(seq!['"'] + json::json_escaped(s) + seq!['"']) == Some(s),
{
    reveal_strlit("\"");
    assert("\""@ =~= seq!['"']);
    json_reading::lemma_literal(s);
}

/// A program that watches a run finds in each line what the event says, and the
/// totals with it counted. `percent` is a number.
#[verifier::rlimit(40)]
pub proof fn law_lines_read_back(t: EmitterTotals, ev: ProgressEvent, percent: Seq<char>)
    requires
        json_reading::is_value(percent),
        lines::event_text(t, ev, percent) is Some,
    ensures
        line_tells(lines::event_text(t, ev, percent)->0, t, ev, percent),
{
    json_reading::lemma_number(t.total_bytes as nat);
    json_reading::lemma_number(t.total_segments as nat);
    json_reading::lemma_number(t.done_bytes as nat);
    json_reading::lemma_number(t.done_segments as nat);
    match ev {
        ProgressEvent::Started { files, connections, target, .. } => {
            let v4 = match target {
                Some(s) => json::json_quoted(s@),
                None => "null"@,
            };
            json_reading::lemma_null();
            if let Some(s) = target {
                json_reading::lemma_literal(s@);
            }
            json_reading::lemma_number(files@.len());
            json_reading::lemma_number(connections as nat);
            let v0 = text::decimal(files@.len());
            let v1 = text::decimal(t.total_bytes as nat);
            let v2 = text::decimal(t.total_segments as nat);
            let v3 = text::decimal(connections as nat);
            lemma_started_fields(v0, v1, v2, v3, v4);
            lemma_started_text(v0, v1, v2, v3, v4);
            let f = started_fields(v0, v1, v2, v3, v4);
            json_reading::lemma_object(f, 0);
            json_reading::lemma_object(f, 1);
            json_reading::lemma_object(f, 2);
            json_reading::lemma_object(f, 3);
            json_reading::lemma_object(f, 4);
            json_reading::lemma_object(f, 5);
        },
        ProgressEvent::SegmentDone { file, bytes, ok } => {
            lemma_inline(file@);
            json_reading::lemma_number(bytes as nat);
            json_reading::lemma_bool(ok);
            let e0 = json::json_escaped(file@);
            let v1 = text::decimal(bytes as nat);
            let v2 = json::bool_text(ok);
            let v3 = text::decimal(t.done_segments as nat);
            let v4 = text::decimal(t.total_segments as nat);
            let v5 = text::decimal(t.done_bytes as nat);
            let v6 = text::decimal(t.total_bytes as nat);
            lemma_done_fields(e0, v1, v2, v3, v4, v5, v6, percent);
            lemma_done_text(e0, v1, v2, v3, v4, v5, v6, percent);
            let f = done_fields(e0, v1, v2, v3, v4, v5, v6, percent);
            json_reading::lemma_object(f, 0);
            json_reading::lemma_object(f, 1);
            json_reading::lemma_object(f, 2);
            json_reading::lemma_object(f, 3);
            json_reading::lemma_object(f, 4);
            json_reading::lemma_object(f, 5);
            json_reading::lemma_object(f, 6);
            json_reading::lemma_object(f, 7);
            json_reading::lemma_object(f, 8);
        },
        ProgressEvent::QueueExtended { file, segments, bytes } => {
            lemma_inline(file@);
            json_reading::lemma_number(bytes as nat);
            json_reading::lemma_number(segments as nat);
            let e0 = json::json_escaped(file@);
            let v1 = text::decimal(segments as nat);
            let v2 = text::decimal(bytes as nat);
            let v3 = text::decimal(t.total_segments as nat);
            let v4 = text::decimal(t.total_bytes as nat);
            lemma_extended_fields(e0, v1, v2, v3, v4);
            lemma_extended_text(e0, v1, v2, v3, v4);
            let f = extended_fields(e0, v1, v2, v3, v4);
            json_reading::lemma_object(f, 0);
            json_reading::lemma_object(f, 1);
            json_reading::lemma_object(f, 2);
            json_reading::lemma_object(f, 3);
            json_reading::lemma_object(f, 4);
            json_reading::lemma_object(f, 5);
        },
        ProgressEvent::Status { text } => {
            lemma_inline(text@);
            let e0 = json::json_escaped(text@);
            lemma_status_fields(e0);
            lemma_status_text(e0);
            let f = status_fields(e0);
            json_reading::lemma_object(f, 0);
            json_reading::lemma_object(f, 1);
        },
        ProgressEvent::Failed { description } => {
            lemma_inline(description@);
            let e0 = json::json_escaped(description@);
            lemma_failed_fields(e0);
            lemma_failed_text(e0);
            let f = failed_fields(e0);
            json_reading::lemma_object(f, 0);
            json_reading::lemma_object(f, 1);
        },
        ProgressEvent::CompressStarted { total_bytes } => {
            json_reading::lemma_number(total_bytes as nat);
            let v0 = text::decimal(total_bytes as nat);
            lemma_packing_fields(v0);
            lemma_packing_text(v0);
            let f = packing_fields(v0);
            json_reading::lemma_object(f, 0);
            json_reading::lemma_object(f, 1);
        },
        ProgressEvent::CompressProgress { bytes_written } => {
            json_reading::lemma_number(bytes_written as nat);
            let v0 = text::decimal(bytes_written as nat);
            lemma_packed_fields(v0);
            lemma_packed_text(v0);
            let f = packed_fields(v0);
            json_reading::lemma_object(f, 0);
            json_reading::lemma_object(f, 1);
        },
        ProgressEvent::Par2WriteStarted { total } => {
            json_reading::lemma_number(total as nat);
            let v0 = text::decimal(total as nat);
            lemma_writing_fields(v0);
            lemma_writing_text(v0);
            let f = writing_fields(v0);
            json_reading::lemma_object(f, 0);
            json_reading::lemma_object(f, 1);
        },
        _ => {},
    }
}

/// A program that watches a run finds in the last line how many segments were done,
/// how many of them failed, and whether none did.
pub proof fn law_the_last_line_reads_back(t: EmitterTotals, percent: Seq<char>)
    requires
        json_reading::is_value(percent),
    ensures
        ({
            let line = lines::finished_text(t, percent);
            &&& type_of(line) == Some("finished"@)
            &&& counts(line, "segments"@, t.done_segments as nat)
            &&& counts(line, "failures"@, t.failures as nat)
            &&& json_reading::raw(line, "progress_pct"@) == Some(percent)
            &&& says(line, "ok"@, t.failures == 0)
        }),
{
    json_reading::lemma_number(t.done_segments as nat);
    json_reading::lemma_number(t.failures as nat);
    json_reading::lemma_bool(t.failures == 0);
    let v0 = text::decimal(t.done_segments as nat);
    let v1 = text::decimal(t.failures as nat);
    let v3 = json::bool_text(t.failures == 0);
    lemma_end_fields(v0, v1, percent, v3);
    lemma_end_text(v0, v1, percent, v3);
    let f = end_fields(v0, v1, percent, v3);
    json_reading::lemma_object(f, 0);
    json_reading::lemma_object(f, 1);
    json_reading::lemma_object(f, 2);
    json_reading::lemma_object(f, 3);
    json_reading::lemma_object(f, 4);
}

} // verus!
