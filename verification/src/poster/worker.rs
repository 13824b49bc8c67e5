//! What a worker does with a segment: build the article, post it until it is
//! accepted or all attempts are used up, and report.

use vstd::prelude::*;
use vstd::string::*;

use crate::article;
use crate::article::Article;
use crate::config::Config;
use crate::nntp;
use crate::text;
use crate::yenc;
use crate::yenc::PartSpec;

use super::plan::FileMeta;
use super::PostedSegment;

verus! {

fn copy_strings(list: &[String]) -> (copy: Vec<String>)
    ensures
        copy@ == list@,
{
    let n: usize = list.len();
    let mut copy: Vec<String> = Vec::new();
    let mut i: usize = 0;
    while i < n
        invariant
            i <= n,
            n == list@.len(),
            copy@ == list@.take(i as int),
        decreases n - i,
    {
        copy.push(list[i].clone());
        assert(copy@ =~= list@.take(i + 1));
        i = i + 1;
    }
    assert(copy@ =~= list@);
    copy
}

/// The article of a segment: its headers and its data in yEnc.
pub open spec fn article_bytes(
    meta: FileMeta,
    part: PartSpec,
    data: Seq<u8>,
    config: Config,
    message_id: Seq<char>,
    date: Option<&str>,
) -> Seq<u8> {
    vstd::utf8::encode_utf8(
        article::header_text(
            config.from@,
            config.groups@,
            article::subject_text(meta.subject_name@, part.number as nat, part.total as nat),
            message_id,
            date,
            config.no_archive,
        ),
    ) + yenc::part_body(
        meta.yenc_name@,
        meta.size as nat,
        part,
        data,
        config.line_length,
        None,
    )
}

/// Build the article of a segment.
pub fn build_article(
    meta: &FileMeta,
    part: PartSpec,
    data: &[u8],
    config: &Config,
    message_id: &str,
    date: Option<&str>,
) -> (bytes: Vec<u8>)
    requires
        part.offset + 1 <= u64::MAX,
        part.offset + data@.len() <= u64::MAX,
    ensures
        bytes@ == article_bytes(*meta, part, data@, *config, message_id@, date),
{
    let encoded: yenc::EncodedPart = yenc::encode_part(
        meta.yenc_name.as_str(),
        meta.size,
        part,
        data,
        config.line_length,
        None,
    );
    let article: Article = Article {
        message_id: String::from_str(message_id),
        from: config.from.clone(),
        newsgroups: copy_strings(config.groups.as_slice()),
        subject: article::default_subject(meta.subject_name.as_str(), part.number, part.total),
    };
    article.serialize_with(date, config.no_archive, encoded.body.as_slice())
}

/// What is sent for a segment gives the segment back: the receiver unstuffs the
/// payload to the article, in which the encoded data stands behind the headers
/// and control lines; the data decodes to the segment, and no part of it can be
/// taken for a control line.
pub proof fn law_posted_segments_can_be_read_back(
    meta: FileMeta,
    part: PartSpec,
    data: Seq<u8>,
    config: Config,
    message_id: Seq<char>,
    date: Option<&str>,
)
    ensures
        ({
            let sent = article_bytes(meta, part, data, config, message_id, date);
            let payload = nntp::payload_of(sent);
            let encoded = yenc::yenc(data, config.line_length);
            &&& nntp::unstuffed(payload.take(payload.len() - 3)).0 == sent
            &&& exists|front: Seq<u8>, back: Seq<u8>|
                sent == #[trigger] (front + encoded + back)
            &&& yenc::decoder(encoded) == (data, false)
            &&& yenc::markers_are_no_control(encoded)
        }),
{
    let sent = article_bytes(meta, part, data, config, message_id, date);
    let encoded = yenc::yenc(data, config.line_length);
    let body = yenc::part_body(
        meta.yenc_name@,
        meta.size as nat,
        part,
        data,
        config.line_length,
        None,
    );
    yenc::law_part_body_ends_with_line_end(
        meta.yenc_name@,
        meta.size as nat,
        part,
        data,
        config.line_length,
        None,
    );
    assert(nntp::ends_with_line_end(sent));
    nntp::law_complete_articles_come_back(sent);
    yenc::law_encoding_is_reversible(data, config.line_length);
    yenc::law_data_is_no_control_line(data, config.line_length);
    let total = part.total as nat;
    let begin_line = vstd::utf8::encode_utf8(
        yenc::ybegin_line(
            meta.yenc_name@,
            meta.size as nat,
            part.number as nat,
            total,
            config.line_length as nat,
        ),
    );
    let head = if total > 1 {
        begin_line + vstd::utf8::encode_utf8(
            yenc::ypart_line((part.offset + 1) as nat, (part.offset + data.len()) as nat),
        )
    } else {
        begin_line
    };
    let back = vstd::utf8::encode_utf8(
        yenc::yend_line(
            data.len(),
            part.number as nat,
            total,
            crate::digests::crc32_checksum(data) as nat,
            None,
        ),
    );
    let front = sent.take(sent.len() - body.len()) + head;
    assert(body == head + encoded + back);
    assert(sent =~= front + encoded + back);
}

/// The article of a segment is headers and a body. A server finds in the headers
/// the poster and groups of the configuration, the identifier, and the subject under
/// which the file is posted, with the number of the part; a reader finds in the body
/// the name under which the file is encoded, its size, the place of the part, its
/// data and their checksum.
pub proof fn law_articles_carry_their_segment(
    meta: FileMeta,
    part: PartSpec,
    data: Seq<u8>,
    config: Config,
    message_id: Seq<char>,
    date: Option<&str>,
)
    requires
        article::fits_headers(
            config.from@,
            config.groups@,
            article::subject_text(meta.subject_name@, part.number as nat, part.total as nat),
            message_id,
            date,
        ),
    ensures
        exists|
            headers: Seq<char>,
            body: Seq<u8>,
            first: Seq<char>,
            second: Seq<char>,
            encoded: Seq<u8>,
            last: Seq<char>,
        |
            {
                &&& #[trigger] is_article(
                    article_bytes(meta, part, data, config, message_id, date),
                    headers,
                    body,
                )
                &&& article::heads_as(
                    headers,
                    config.from@,
                    config.groups@,
                    article::subject_text(
                        meta.subject_name@,
                        part.number as nat,
                        part.total as nat,
                    ),
                    message_id,
                    date,
                    config.no_archive,
                )
                &&& #[trigger] yenc::is_body(body, first, second, encoded, last)
                &&& yenc::begins_as(
                    first,
                    meta.yenc_name@,
                    meta.size as nat,
                    part,
                    config.line_length,
                )
                &&& yenc::places_as(second, part, data.len())
                &&& yenc::decoder(encoded) == (data, false)
                &&& yenc::ends_as(last, part, data, None)
            },
{
    let subject = article::subject_text(
        meta.subject_name@,
        part.number as nat,
        part.total as nat,
    );
    let headers = article::header_text(
        config.from@,
        config.groups@,
        subject,
        message_id,
        date,
        config.no_archive,
    );
    let body = yenc::part_body(
        meta.yenc_name@,
        meta.size as nat,
        part,
        data,
        config.line_length,
        None,
    );
    article::law_headers_read_back(
        config.from@,
        config.groups@,
        subject,
        message_id,
        date,
        config.no_archive,
    );
    yenc::law_articles_read_back(
        meta.yenc_name@,
        meta.size as nat,
        part,
        data,
        config.line_length,
        None,
    );
    assert(is_article(
        article_bytes(meta, part, data, config, message_id, date),
        headers,
        body,
    ));
}

/// Headers, and a body behind them.
pub open spec fn is_article(bytes: Seq<u8>, headers: Seq<char>, body: Seq<u8>) -> bool {
    bytes == vstd::utf8::encode_utf8(headers) + body
}

/// What a worker does next with a segment.
#[derive(Debug, Clone, Copy, PartialEq, Eq, Structural)]
pub enum Stage {
    /// Get a connection.
    Connect,
    /// Post the article.
    Post,
    /// Ask the server for the article.
    Stat,
    /// Nothing: the segment is posted.
    Posted,
    /// Nothing: all attempts are used up.
    Failed,
}

/// What came of a step.
#[derive(Debug)]
pub enum Reply {
    /// There is a connection.
    Connected,
    /// There is no connection.
    ConnectFailed { error: String },
    /// The server took the article.
    Accepted,
    /// The server did not take the article.
    PostFailed { error: String },
    /// The server has the article.
    Found,
    /// The server does not have the article.
    NotFound,
    /// The server did not say whether it has the article.
    StatFailed { error: String },
}

/// The progress of a segment.
pub struct Delivery {
    /// The attempt that is under way, from 1 on.
    pub attempt: u32,
    pub max_attempts: u32,
    /// Whether a posted article is asked for before it counts.
    pub verify: bool,
    pub stage: Stage,
    /// What went wrong last.
    pub last_err: String,
}

/// What is known of a delivery.
pub struct DeliveryState {
    pub attempt: nat,
    pub max_attempts: nat,
    pub verify: bool,
    pub stage: Stage,
    pub last_err: Seq<char>,
}

/// What else is to be done after a step.
#[derive(Debug, Clone, Copy, PartialEq, Eq, Structural)]
pub struct Aftermath {
    /// Drop the connection and turn to the next server.
    pub invalidate: bool,
    /// Count a retry.
    pub retried: bool,
    /// Pause before the next attempt.
    pub pause: bool,
}

/// The reply answers the step that was due.
pub open spec fn answers(stage: Stage, reply: Reply) -> bool {
    match stage {
        Stage::Connect => reply is Connected || reply is ConnectFailed,
        Stage::Post => reply is Accepted || reply is PostFailed,
        Stage::Stat => reply is Found || reply is NotFound || reply is StatFailed,
        Stage::Posted => false,
        Stage::Failed => false,
    }
}

/// What a failed step says went wrong.
pub open spec fn complaint(reply: Reply, message_id: Seq<char>) -> Seq<char> {
    match reply {
        Reply::ConnectFailed { error } => error@,
        Reply::PostFailed { error } => error@,
        Reply::NotFound => "STAT: article "@ + message_id + " not found after posting"@,
        Reply::StatFailed { error } => "STAT: "@ + error@,
        _ => Seq::empty(),
    }
}

/// The step failed, and with it the attempt.
pub open spec fn is_setback(reply: Reply) -> bool {
    reply is ConnectFailed || reply is PostFailed || reply is NotFound || reply is StatFailed
}

impl DeliveryState {
    /// Before the first attempt. Without network, and without a single attempt
    /// allowed, it is also the end.
    pub open spec fn start(dry_run: bool, max_attempts: nat, verify: bool) -> DeliveryState {
        DeliveryState {
            attempt: 1,
            max_attempts,
            verify,
            stage: if dry_run {
                Stage::Posted
            } else if max_attempts == 0 {
                Stage::Failed
            } else {
                Stage::Connect
            },
            last_err: "unknown error"@,
        }
    }

    /// After a step.
    pub open spec fn after(self, reply: Reply, message_id: Seq<char>) -> DeliveryState {
        if is_setback(reply) {
            DeliveryState {
                attempt: if self.attempt < self.max_attempts {
                    self.attempt + 1
                } else {
                    self.attempt
                },
                stage: if self.attempt < self.max_attempts {
                    Stage::Connect
                } else {
                    Stage::Failed
                },
                last_err: complaint(reply, message_id),
                ..self
            }
        } else {
            DeliveryState {
                stage: match reply {
                    Reply::Connected => Stage::Post,
                    Reply::Accepted => if self.verify {
                        Stage::Stat
                    } else {
                        Stage::Posted
                    },
                    _ => Stage::Posted,
                },
                ..self
            }
        }
    }

    /// After several steps.
    pub open spec fn after_all(self, replies: Seq<Reply>, message_id: Seq<char>) -> DeliveryState
        decreases replies.len(),
    {
        if replies.len() == 0 {
            self
        } else {
            self.after_all(replies.drop_last(), message_id).after(replies.last(), message_id)
        }
    }

    /// Every reply answers the step that was due.
    pub open spec fn plausible(self, replies: Seq<Reply>, message_id: Seq<char>) -> bool {
        forall|i: int|
            0 <= i < replies.len() ==> answers(
                self.after_all(replies.take(i), message_id).stage,
                #[trigger] replies[i],
            )
    }
}

impl View for Delivery {
    type V = DeliveryState;

    open spec fn view(&self) -> DeliveryState {
        DeliveryState {
            attempt: self.attempt as nat,
            max_attempts: self.max_attempts as nat,
            verify: self.verify,
            stage: self.stage,
            last_err: self.last_err@,
        }
    }
}

impl Delivery {
    /// Start with a segment.
    pub fn start(dry_run: bool, max_attempts: u32, verify: bool) -> (delivery: Delivery)
        ensures
            delivery@ == DeliveryState::start(dry_run, max_attempts as nat, verify),
    {
        Delivery {
            attempt: 1,
            max_attempts,
            verify,
            stage: if dry_run {
                Stage::Posted
            } else if max_attempts == 0 {
                Stage::Failed
            } else {
                Stage::Connect
            },
            last_err: String::from_str("unknown error"),
        }
    }

    /// Take the reply to the step that was due.
    ///
    /// A setback leads to a pause and the next attempt, or to failure when all
    /// attempts are used up. A server that refused the article or does not
    /// have it is left for the next one.
    pub fn advance(&mut self, reply: Reply, message_id: &str) -> (aftermath: Aftermath)
        requires
            answers(old(self)@.stage, reply),
        ensures
            final(self)@ == old(self)@.after(reply, message_id@),
            aftermath.invalidate == (reply is PostFailed || reply is NotFound
                || reply is StatFailed),
            aftermath.retried == (reply is ConnectFailed || reply is PostFailed),
            aftermath.pause == (is_setback(reply) && old(self)@.attempt < old(
                self,
            )@.max_attempts),
            aftermath.pause <==> is_setback(reply) && final(self)@.stage is Connect,
            aftermath.pause <==> final(self)@.attempt > old(self)@.attempt,
            aftermath.invalidate || aftermath.retried <==> is_setback(reply),
    {
        let invalidate: bool = matches!(
            reply,
            Reply::PostFailed { .. } | Reply::NotFound | Reply::StatFailed { .. }
        );
        let retried: bool = matches!(reply, Reply::ConnectFailed { .. } | Reply::PostFailed { .. });
        let again: bool = self.attempt < self.max_attempts;
        let setback: bool = match reply {
            Reply::Connected => {
                self.stage = Stage::Post;
                false
            },
            Reply::Accepted => {
                self.stage = if self.verify {
                    Stage::Stat
                } else {
                    Stage::Posted
                };
                false
            },
            Reply::Found => {
                self.stage = Stage::Posted;
                false
            },
            Reply::ConnectFailed { error } => {
                self.last_err = error;
                true
            },
            Reply::PostFailed { error } => {
                self.last_err = error;
                true
            },
            Reply::NotFound => {
                let mut text: String = String::from_str("STAT: article ");
                text.append(message_id);
                text.append(" not found after posting");
                self.last_err = text;
                true
            },
            Reply::StatFailed { error } => {
                let mut text: String = String::from_str("STAT: ");
                text.append(error.as_str());
                self.last_err = text;
                true
            },
        };
        if setback {
            if again {
                self.attempt = self.attempt + 1;
                self.stage = Stage::Connect;
            } else {
                self.stage = Stage::Failed;
            }
        }
        Aftermath { invalidate, retried, pause: setback && again }
    }
}

/// The number of setbacks among some replies.
pub open spec fn setbacks(replies: Seq<Reply>) -> nat
    decreases replies.len(),
{
    if replies.len() == 0 {
        0
    } else {
        setbacks(replies.drop_last()) + if is_setback(replies.last()) {
            1nat
        } else {
            0
        }
    }
}

/// The number of times that the article was sent.
pub open spec fn sendings(replies: Seq<Reply>) -> nat
    decreases replies.len(),
{
    if replies.len() == 0 {
        0
    } else {
        sendings(replies.drop_last()) + if replies.last() is Accepted || replies.last()
            is PostFailed {
            1nat
        } else {
            0
        }
    }
}

proof fn lemma_plausible_prefix(
    start: DeliveryState,
    replies: Seq<Reply>,
    message_id: Seq<char>,
)
    requires
        replies.len() > 0,
        start.plausible(replies, message_id),
    ensures
        start.plausible(replies.drop_last(), message_id),
        answers(start.after_all(replies.drop_last(), message_id).stage, replies.last()),
{
    let rest = replies.drop_last();
    assert forall|i: int| 0 <= i < rest.len() implies answers(
        start.after_all(rest.take(i), message_id).stage,
        #[trigger] rest[i],
    ) by {
        assert(rest.take(i) =~= replies.take(i));
        assert(rest[i] == replies[i]);
    }
    assert(replies.take(replies.len() - 1) =~= rest);
    assert(answers(
        start.after_all(replies.take(replies.len() - 1), message_id).stage,
        replies[replies.len() - 1],
    ));
}

/// Attempts are bounded: no more setbacks than attempts allowed, no more
/// sendings either, and failure comes exactly when every attempt met with a
/// setback.
pub proof fn law_attempts_are_bounded(
    max_attempts: nat,
    verify: bool,
    replies: Seq<Reply>,
    message_id: Seq<char>,
)
    requires
        max_attempts > 0,
        DeliveryState::start(false, max_attempts, verify).plausible(replies, message_id),
    ensures
        ({
            let end = DeliveryState::start(false, max_attempts, verify).after_all(
                replies,
                message_id,
            );
            &&& 1 <= end.attempt <= max_attempts
            &&& setbacks(replies) <= max_attempts
            &&& sendings(replies) <= max_attempts
            &&& (end.stage is Failed <==> setbacks(replies) == max_attempts)
        }),
    decreases replies.len(),
{
    let start = DeliveryState::start(false, max_attempts, verify);
    lemma_delivery(max_attempts, verify, replies, message_id);
}

proof fn lemma_delivery(
    max_attempts: nat,
    verify: bool,
    replies: Seq<Reply>,
    message_id: Seq<char>,
)
    requires
        max_attempts > 0,
        DeliveryState::start(false, max_attempts, verify).plausible(replies, message_id),
    ensures
        ({
            let end = DeliveryState::start(false, max_attempts, verify).after_all(
                replies,
                message_id,
            );
            &&& end.max_attempts == max_attempts
            &&& end.verify == verify
            &&& 1 <= end.attempt <= max_attempts
            &&& end.stage is Failed ==> setbacks(replies) == max_attempts
            &&& !(end.stage is Failed) ==> setbacks(replies) == end.attempt - 1
            &&& sendings(replies) <= end.attempt
            &&& (end.stage is Connect || end.stage is Post) ==> sendings(replies) < end.attempt
            &&& end.stage is Stat ==> verify && replies.len() > 0 && replies.last() is Accepted
        }),
    decreases replies.len(),
{
    let start = DeliveryState::start(false, max_attempts, verify);
    if replies.len() > 0 {
        lemma_plausible_prefix(start, replies, message_id);
        lemma_delivery(max_attempts, verify, replies.drop_last(), message_id);
    }
}

/// A segment counts as posted only once the server took the article, and, where
/// that is asked for, only once the server was found to have it.
pub proof fn law_posted_means_accepted(
    max_attempts: nat,
    verify: bool,
    replies: Seq<Reply>,
    message_id: Seq<char>,
)
    requires
        max_attempts > 0,
        DeliveryState::start(false, max_attempts, verify).plausible(replies, message_id),
        DeliveryState::start(false, max_attempts, verify).after_all(replies, message_id).stage
            is Posted,
    ensures
        !verify ==> replies.len() > 0 && replies.last() is Accepted,
        verify ==> replies.len() > 1 && replies.last() is Found && replies[replies.len() - 2]
            is Accepted,
{
    let start = DeliveryState::start(false, max_attempts, verify);
    lemma_delivery(max_attempts, verify, replies, message_id);
    assert(replies.len() > 0);
    lemma_plausible_prefix(start, replies, message_id);
    lemma_delivery(max_attempts, verify, replies.drop_last(), message_id);
}

/// As long as a delivery is not done, it goes on: a setback leads to the next
/// attempt on a fresh connection while there is one left, a connection to the
/// article being sent, and an accepted article to the question for it exactly where
/// that is asked for. The attempt under way is one more than the setbacks, and what
/// went wrong last is what the last setback said.
pub proof fn law_deliveries_go_on(
    max_attempts: nat,
    verify: bool,
    replies: Seq<Reply>,
    message_id: Seq<char>,
)
    requires
        max_attempts > 0,
        replies.len() > 0,
        DeliveryState::start(false, max_attempts, verify).plausible(replies, message_id),
    ensures
        ({
            let end = DeliveryState::start(false, max_attempts, verify).after_all(
                replies,
                message_id,
            );
            let last = replies.last();
            &&& end.stage is Failed <==> setbacks(replies) == max_attempts
            &&& !(end.stage is Failed) ==> end.attempt == setbacks(replies) + 1
            &&& is_setback(last) ==> end.last_err == complaint(last, message_id)
            &&& is_setback(last) && setbacks(replies) < max_attempts ==> end.stage is Connect
            &&& last is Connected ==> end.stage is Post
            &&& last is Accepted && verify ==> end.stage is Stat
            &&& last is Accepted && !verify ==> end.stage is Posted
            &&& last is Found ==> end.stage is Posted
            &&& setbacks(replies) == 0 ==> end.last_err == "unknown error"@
        }),
{
    let start = DeliveryState::start(false, max_attempts, verify);
    lemma_delivery(max_attempts, verify, replies, message_id);
    lemma_plausible_prefix(start, replies, message_id);
    lemma_delivery(max_attempts, verify, replies.drop_last(), message_id);
    lemma_no_complaint(max_attempts, verify, replies, message_id);
}

proof fn lemma_no_complaint(
    max_attempts: nat,
    verify: bool,
    replies: Seq<Reply>,
    message_id: Seq<char>,
)
    ensures
        setbacks(replies) == 0 ==> DeliveryState::start(false, max_attempts, verify).after_all(
            replies,
            message_id,
        ).last_err == "unknown error"@,
    decreases replies.len(),
{
    if replies.len() > 0 {
        lemma_no_complaint(max_attempts, verify, replies.drop_last(), message_id);
    }
}

/// A dry run posts every segment without a single step.
pub proof fn law_dry_runs_touch_no_network(max_attempts: nat, verify: bool, reply: Reply)
    ensures
        DeliveryState::start(true, max_attempts, verify).stage is Posted,
        !answers(DeliveryState::start(true, max_attempts, verify).stage, reply),
{
}

/// The record of a segment that is posted.
pub fn posted_segment(meta: &FileMeta, part: u32, total: u32, message_id: &str, bytes: u64) -> (
segment: PostedSegment)
    ensures
        segment.file_name@ == meta.real_name@,
        segment.subject_name@ == meta.subject_name@,
        segment.file_size == meta.size,
        segment.part == part,
        segment.total == total,
        segment.message_id@ == message_id@,
        segment.bytes == bytes,
{
    PostedSegment {
        file_name: meta.real_name.clone(),
        subject_name: meta.subject_name.clone(),
        file_size: meta.size,
        part,
        total,
        message_id: String::from_str(message_id),
        bytes,
    }
}

/// The record of a segment that an earlier run posted, where its `Message-ID` is
/// stored: it keeps that identifier, and nothing is sent. Without one the segment
/// is still to be posted.
pub fn resumed_segment(meta: &FileMeta, part: u32, total: u32, stored: Option<&str>) -> (r: Option<
    PostedSegment,
>)
    ensures
        match (stored, r) {
            (None, None) => true,
            (Some(id), Some(segment)) => {
                &&& segment.file_name@ == meta.real_name@
                &&& segment.subject_name@ == meta.subject_name@
                &&& segment.file_size == meta.size
                &&& segment.part == part
                &&& segment.total == total
                &&& segment.message_id@ == id@
                &&& segment.bytes == 0
            },
            _ => false,
        },
{
    match stored {
        Some(id) => Some(posted_segment(meta, part, total, id, 0)),
        None => None,
    }
}

/// What is reported of a segment that failed.
pub open spec fn failure_text(name: Seq<char>, part: nat, total: nat, error: Seq<char>) -> Seq<
    char,
> {
    name + " part "@ + text::decimal(part) + "/"@ + text::decimal(total) + ": "@ + error
}

/// Record a segment that failed, and describe it.
pub fn record_failure(
    failures: &mut Vec<String>,
    meta: &FileMeta,
    part: u32,
    total: u32,
    error: &str,
) -> (description: String)
    ensures
        description@ == failure_text(meta.real_name@, part as nat, total as nat, error@),
        final(failures)@ == old(failures)@.push(description),
{
    let mut description: String = meta.real_name.clone();
    description.append(" part ");
    text::push_decimal(&mut description, part as u64);
    description.append("/");
    text::push_decimal(&mut description, total as u64);
    description.append(": ");
    description.append(error);
    failures.push(description.clone());
    description
}

} // verus!
