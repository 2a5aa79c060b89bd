//! Conversations: the comments of a review, grouped into those that start a
//! conversation and the replies to each of them.
//!
//! A conversation holds no comment itself. It holds the review as a table of
//! comments, and names a comment by its position in that table.

use std::collections::HashMap;
use vstd::prelude::*;
use vstd::string::StringExecFns;
use crate::comment::{LineRange, ReviewComment};
use crate::hunk::Extent;
use crate::number::{decimal, push_decimal};
use crate::text::{chars_of, find, occurs};
use crate::review::Error;

verus! {

broadcast use vstd::std_specs::hash::group_hash_axioms;

/// The predicate of the comments that start a conversation: those that reply to
/// nothing.
pub open spec fn is_starter() -> spec_fn(ReviewComment) -> bool {
    |c: ReviewComment| c.in_reply_to_id is None
}

/// The predicate of the comments that reply to the comment `id`.
pub open spec fn replies_to(id: u32) -> spec_fn(ReviewComment) -> bool {
    |c: ReviewComment| c.in_reply_to_id == Some(id)
}

/// The positions in `comments` of the comments that satisfy `keep`, in ascending
/// order.
pub open spec fn positions(
    comments: Seq<ReviewComment>,
    keep: spec_fn(ReviewComment) -> bool,
) -> Seq<int>
    decreases comments.len(),
{
    if comments.len() == 0 {
        Seq::empty()
    } else if keep(comments.last()) {
        positions(comments.drop_last(), keep).push(comments.len() - 1)
    } else {
        positions(comments.drop_last(), keep)
    }
}

/// The comments that stand in `comments` at the positions `at`.
pub open spec fn looked_up(comments: Seq<ReviewComment>, at: Seq<int>) -> Seq<ReviewComment> {
    Seq::new(at.len(), |k: int| comments[at[k]])
}

/// The positions `v` as mathematical integers.
pub open spec fn indices(v: Seq<usize>) -> Seq<int> {
    Seq::new(v.len(), |k: int| v[k] as int)
}

/// The model of the conversations of a review.
#[verifier::ext_equal]
pub struct ConversationView {
    /// The comments of the review.
    pub comments: Seq<ReviewComment>,
    /// The positions of the comments that start a conversation.
    pub starter: Seq<int>,
    /// For the id of each comment that starts a conversation, the positions of
    /// the replies to it.
    pub replies: Map<u32, Seq<int>>,
}

impl ConversationView {
    /// The comments that start a conversation.
    pub open spec fn starters(self) -> Seq<ReviewComment> {
        looked_up(self.comments, self.starter)
    }

    /// The replies to the comment `id`: the comments at the positions kept under
    /// that id, or nothing.
    pub open spec fn replies_of(self, id: u32) -> Seq<ReviewComment> {
        if self.replies.contains_key(id) {
            looked_up(self.comments, self.replies[id])
        } else {
            Seq::empty()
        }
    }

    /// Whether every position that is kept is a position of the table.
    pub open spec fn coherent(self) -> bool {
        &&& forall|k: int|
            0 <= k < self.starter.len() ==> 0 <= #[trigger] self.starter[k] < self.comments.len()
        &&& forall|id: u32, k: int|
            self.replies.contains_key(id) && 0 <= k < self.replies[id].len() ==> 0
                <= #[trigger] self.replies[id][k] < self.comments.len()
    }
}

/// Whether a comment of `comments` that starts a conversation has the id `id`.
pub open spec fn starts_conversation(comments: Seq<ReviewComment>, id: u32) -> bool {
    exists|i: int|
        0 <= i < comments.len() && is_starter()(#[trigger] comments[i]) && comments[i].id == id
}

/// The conversations of the review `comments`: the starters are the comments
/// that reply to nothing, in the order of the review, and each of them has, under
/// its id, the comments that reply to it, in the order of the review.
pub open spec fn grouped(comments: Seq<ReviewComment>) -> ConversationView {
    ConversationView {
        comments,
        starter: positions(comments, is_starter()),
        replies: Map::new(
            |id: u32| starts_conversation(comments, id),
            |id: u32| positions(comments, replies_to(id)),
        ),
    }
}

/// One comment as a line of a conversation: its author, a colon and its body.
pub open spec fn entry_text(c: ReviewComment) -> Seq<char> {
    c.user.login@ + ": "@ + c.body@
}

/// The conversation that `start` starts and `replies` go on with: one entry for
/// each comment, on a line of its own.
pub open spec fn thread_text(start: ReviewComment, replies: Seq<ReviewComment>) -> Seq<char>
    decreases replies.len(),
{
    if replies.len() == 0 {
        entry_text(start)
    } else {
        thread_text(start, replies.drop_last()) + "\n"@ + entry_text(replies.last())
    }
}

/// The positions of the comments that satisfy a predicate are positions of the
/// table, each of a comment that satisfies it, none left out, in ascending
/// order; the comments at them are the comments that a filter by the predicate
/// leaves.
pub proof fn lemma_positions(comments: Seq<ReviewComment>, keep: spec_fn(ReviewComment) -> bool)
    ensures
        forall|k: int|
            0 <= k < positions(comments, keep).len() ==> 0 <= #[trigger] positions(
                comments,
                keep,
            )[k] < comments.len() && keep(comments[positions(comments, keep)[k]]),
        forall|j: int, k: int|
            0 <= j < k < positions(comments, keep).len() ==> #[trigger] positions(
                comments,
                keep,
            )[j] < #[trigger] positions(comments, keep)[k],
        forall|i: int|
            0 <= i < comments.len() && keep(#[trigger] comments[i]) ==> positions(
                comments,
                keep,
            ).contains(i),
        looked_up(comments, positions(comments, keep)) == comments.filter(keep),
    decreases comments.len(),
{
    reveal(Seq::filter);
    if comments.len() > 0 {
        let before = comments.drop_last();
        let p = positions(comments, keep);
        let q = positions(before, keep);
        lemma_positions(before, keep);
        assert forall|i: int|
            0 <= i < comments.len() && keep(#[trigger] comments[i]) implies p.contains(i) by {
            if i < before.len() {
                assert(before[i] == comments[i]);
                let k = choose|k: int| 0 <= k < q.len() && q[k] == i;
                assert(p[k] == i);
            } else {
                assert(p[p.len() - 1] == i);
            }
        }
    }
}

/// The positions among `comments` of the comments that start a conversation.
fn select_starters(comments: &Vec<ReviewComment>) -> (found: Vec<usize>)
    ensures
        indices(found@) == positions(comments@, is_starter()),
{
    let mut found: Vec<usize> = Vec::new();
    let mut i: usize = 0;
    while i < comments.len()
        invariant
            i <= comments@.len(),
            indices(found@) == positions(comments@.take(i as int), is_starter()),
        decreases comments@.len() - i,
    {
        assert(comments@.take(i + 1).drop_last() == comments@.take(i as int));
        let ghost before = indices(found@);
        if comments[i].in_reply_to_id.is_none() {
            found.push(i);
            assert(indices(found@) == before.push(i as int));
        }
        i += 1;
    }
    assert(comments@.take(i as int) == comments@);
    found
}

/// The positions among `comments` of the comments that reply to the comment
/// `id`.
fn select_replies(comments: &Vec<ReviewComment>, id: u32) -> (found: Vec<usize>)
    ensures
        indices(found@) == positions(comments@, replies_to(id)),
{
    let mut found: Vec<usize> = Vec::new();
    let mut i: usize = 0;
    while i < comments.len()
        invariant
            i <= comments@.len(),
            indices(found@) == positions(comments@.take(i as int), replies_to(id)),
        decreases comments@.len() - i,
    {
        assert(comments@.take(i + 1).drop_last() == comments@.take(i as int));
        let ghost before = indices(found@);
        let is_reply = match comments[i].in_reply_to_id {
            Some(to) => to == id,
            None => false,
        };
        if is_reply {
            found.push(i);
            assert(indices(found@) == before.push(i as int));
        }
        i += 1;
    }
    assert(comments@.take(i as int) == comments@);
    found
}

/// Appends the entry of the comment `c` to `out`.
fn append_entry(out: &mut String, c: &ReviewComment)
    ensures
        final(out)@ == old(out)@ + entry_text(*c),
{
    out.append(c.user.login.as_str());
    out.append(": ");
    out.append(c.body.as_str());
}

/// The comments of a review as conversations.
pub struct Conversation<'a> {
    /// The comments of the review: the table that the positions refer to.
    comments: &'a Vec<ReviewComment>,
    /// The positions of the comments that start a conversation, in ascending
    /// order.
    starter: Vec<usize>,
    /// For each comment that starts a conversation, by its id, the positions of
    /// the replies to it in ascending order.
    replies: HashMap<u32, Vec<usize>>,
}

impl<'a> View for Conversation<'a> {
    type V = ConversationView;

    closed spec fn view(&self) -> ConversationView {
        ConversationView {
            comments: self.comments@,
            starter: indices(self.starter@),
            replies: Map::new(
                |id: u32| self.replies@.contains_key(id),
                |id: u32| indices(self.replies@[id]@),
            ),
        }
    }
}

impl<'a> Conversation<'a> {
    /// Every position that is kept is a position of the table.
    #[verifier::type_invariant]
    spec fn coherent(&self) -> bool {
        self@.coherent()
    }

    /// Groups the comments of a review into conversations.
    pub fn from_review_comments(comments: &'a Vec<ReviewComment>) -> (r: Result<Self, Error>)
        ensures
            r matches Ok(conversation) && conversation@ == grouped(comments@),
    {
        let starter = select_starters(comments);
        let mut replies: HashMap<u32, Vec<usize>> = HashMap::new();
        let mut k: usize = 0;
        proof {
            lemma_positions(comments@, is_starter());
        }
        while k < starter.len()
            invariant
                k <= starter@.len(),
                indices(starter@) == positions(comments@, is_starter()),
                forall|j: int|
                    0 <= j < starter@.len() ==> 0 <= #[trigger] indices(starter@)[j]
                        < comments@.len() && is_starter()(comments@[indices(starter@)[j]]),
                forall|id: u32| #[trigger]
                    replies@.contains_key(id) <==> exists|j: int|
                        0 <= j < k && comments@[#[trigger] indices(starter@)[j]].id == id,
                forall|id: u32| #[trigger]
                    replies@.contains_key(id) ==> indices(replies@[id]@) == positions(
                        comments@,
                        replies_to(id),
                    ),
            decreases starter@.len() - k,
        {
            assert(indices(starter@)[k as int] == starter@[k as int]);
            let id = comments[starter[k]].id;
            let found = select_replies(comments, id);
            replies.insert(id, found);
            k += 1;
        }
        proof {
            let model = grouped(comments@);
            let view = ConversationView {
                comments: comments@,
                starter: indices(starter@),
                replies: Map::new(
                    |id: u32| replies@.contains_key(id),
                    |id: u32| indices(replies@[id]@),
                ),
            };
            assert forall|id: u32| view.replies.contains_key(id) implies model.replies.contains_key(
                id,
            ) by {
                let j = choose|j: int|
                    0 <= j < k && comments@[#[trigger] indices(starter@)[j]].id == id;
                assert(is_starter()(comments@[indices(starter@)[j]]));
            }
            assert forall|id: u32| model.replies.contains_key(id) implies view.replies.contains_key(
                id,
            ) by {
                let i = choose|i: int|
                    0 <= i < comments@.len() && is_starter()(#[trigger] comments@[i])
                        && comments@[i].id == id;
                assert(indices(starter@).contains(i));
                let j = choose|j: int| 0 <= j < starter@.len() && indices(starter@)[j] == i;
                assert(comments@[indices(starter@)[j]].id == id);
            }
            assert(view.replies =~= model.replies);
            assert(view =~= model);
            assert forall|id: u32, n: int|
                view.replies.contains_key(id) && 0 <= n < view.replies[id].len() implies 0
                <= #[trigger] view.replies[id][n] < comments@.len() by {
                lemma_positions(comments@, replies_to(id));
            }
        }
        Ok(Conversation { comments, starter, replies })
    }

    /// The comments of the review.
    pub fn comments(&self) -> (r: &'a Vec<ReviewComment>)
        ensures
            r@ == self@.comments,
    {
        self.comments
    }

    /// The positions of the comments that start a conversation.
    pub fn starter(&self) -> (r: &Vec<usize>)
        ensures
            indices(r@) == self@.starter,
            self@.coherent(),
    {
        proof {
            use_type_invariant(self);
        }
        &self.starter
    }

    /// The positions of the replies to the comment `id`, if that comment starts a
    /// conversation.
    pub fn replies(&self, id: u32) -> (r: Option<&Vec<usize>>)
        ensures
            match r {
                Some(at) => self@.replies.contains_key(id) && indices(at@) == self@.replies[id],
                None => !self@.replies.contains_key(id),
            },
            self@.coherent(),
    {
        proof {
            use_type_invariant(self);
        }
        self.replies.get(&id)
    }

    /// The conversation that `start` starts, as a text.
    pub fn serialize(&self, start: &ReviewComment) -> (conv: String)
        ensures
            conv@ == thread_text(*start, self@.replies_of(start.id)),
    {
        proof {
            use_type_invariant(self);
        }
        let mut conv = String::new();
        append_entry(&mut conv, start);
        match self.replies.get(&start.id) {
            None => (),
            Some(rid) => {
                let ghost all = looked_up(self.comments@, indices(rid@));
                let mut i: usize = 0;
                assert(self@.replies[start.id] == indices(rid@));
                while i < rid.len()
                    invariant
                        i <= rid@.len(),
                        all == looked_up(self.comments@, indices(rid@)),
                        forall|n: int|
                            0 <= n < rid@.len() ==> 0 <= #[trigger] indices(rid@)[n]
                                < self.comments@.len(),
                        conv@ == thread_text(*start, all.take(i as int)),
                    decreases rid@.len() - i,
                {
                    assert(all.take(i + 1).drop_last() == all.take(i as int));
                    assert(indices(rid@)[i as int] == rid@[i as int]);
                    conv.append("\n");
                    append_entry(&mut conv, &self.comments[rid[i]]);
                    i += 1;
                }
                assert(all.take(i as int) == all);
            },
        }
        conv
    }

    /// What an editor is to show on the file `uri`, whose text is `text`: for each
    /// conversation on a file whose path stands in `uri`, the conversation as a
    /// text, at the lines of `text` on which the comment that starts it stands.
    /// `None` if one of those comments stands on no lines of `text`.
    pub fn diagnostics(&self, uri: &str, text: &str) -> (r: Option<Vec<Diagnostic>>)
        ensures
            match r {
                Some(found) => all_resolvable(self@.starters(), uri@, text@) && diagnostic_views(
                    found@,
                ) == diagnostics_of(self@, self@.starters(), uri@, text@),
                None => !all_resolvable(self@.starters(), uri@, text@),
            },
    {
        proof {
            use_type_invariant(self);
        }
        let mut found: Vec<Diagnostic> = Vec::new();
        let uri_chars = chars_of(uri);
        let ghost starters = self@.starters();
        let mut i: usize = 0;
        while i < self.starter.len()
            invariant
                i <= self.starter@.len(),
                uri_chars@ == uri@,
                starters == self@.starters(),
                starters.len() == self.starter@.len(),
                forall|n: int|
                    0 <= n < self.starter@.len() ==> 0 <= #[trigger] indices(self.starter@)[n]
                        < self.comments@.len(),
                forall|k: int|
                    0 <= k < i && occurs(uri@, (#[trigger] starters[k]).path@)
                        ==> starters[k].resolvable(text@),
                diagnostic_views(found@) == diagnostics_of(
                    self@,
                    starters.take(i as int),
                    uri@,
                    text@,
                ),
            decreases self.starter@.len() - i,
        {
            let start = &self.comments[self.starter[i]];
            let path_chars = chars_of(start.path.as_str());
            assert(starters.take(i + 1).drop_last() == starters.take(i as int));
            assert(starters[i as int] == *start);
            if find(uri_chars.as_slice(), path_chars.as_slice()).is_some() {
                let range = match start.checked_line_range(text) {
                    Some(range) => range,
                    None => {
                        return None;
                    },
                };
                let diagnostic = Diagnostic { range, message: self.serialize(start) };
                found.push(diagnostic);
            }
            i += 1;
        }
        assert(starters.take(i as int) == starters);
        Some(found)
    }

    /// All conversations, written out one after the other, each between two
    /// rules.
    pub fn transcript(&self) -> (out: String)
        ensures
            out@ == transcript_of(self@, self@.starters()),
    {
        proof {
            use_type_invariant(self);
        }
        let mut out = String::new();
        let ghost starters = self@.starters();
        let mut i: usize = 0;
        while i < self.starter.len()
            invariant
                i <= self.starter@.len(),
                starters == self@.starters(),
                starters.len() == self.starter@.len(),
                self@.coherent(),
                out@ == transcript_of(self@, starters.take(i as int)),
            decreases self.starter@.len() - i,
        {
            let comment = &self.comments[self.starter[i]];
            assert(starters.take(i + 1).drop_last() == starters.take(i as int));
            assert(starters[i as int] == *comment);
            push_rule(&mut out, '+');
            out.append(comment.path.as_str());
            out.append("\n");
            out.append(comment.diff_hunk.as_str());
            out.append("\n");
            push_labelled_entry(&mut out, comment);
            match self.replies.get(&comment.id) {
                None => {},
                Some(rid) => {
                    let ghost all = looked_up(self.comments@, indices(rid@));
                    let ghost head = out@;
                    let mut k: usize = 0;
                    assert(all.take(0) == Seq::<ReviewComment>::empty());
                    assert(self@.replies[comment.id] == indices(rid@));
                    while k < rid.len()
                        invariant
                            k <= rid@.len(),
                            all == looked_up(self.comments@, indices(rid@)),
                            forall|n: int|
                                0 <= n < rid@.len() ==> 0 <= #[trigger] indices(rid@)[n]
                                    < self.comments@.len(),
                            out@ == head + labelled_entries(all.take(k as int)),
                        decreases rid@.len() - k,
                    {
                        assert(all.take(k + 1).drop_last() == all.take(k as int));
                        assert(indices(rid@)[k as int] == rid@[k as int]);
                        push_labelled_entry(&mut out, &self.comments[rid[k]]);
                        k += 1;
                    }
                    assert(all.take(k as int) == all);
                },
            }
            push_rule(&mut out, '-');
            i += 1;
        }
        assert(starters.take(i as int) == starters);
        out
    }
}

/// What an editor is to show for the conversations that `starters` start: one
/// text for each of them that is on a file whose path stands in `uri`.
pub open spec fn diagnostics_of(
    conversation: ConversationView,
    starters: Seq<ReviewComment>,
    uri: Seq<char>,
    text: Seq<char>,
) -> Seq<(Extent, Seq<char>)>
    decreases starters.len(),
{
    if starters.len() == 0 {
        Seq::empty()
    } else {
        let before = diagnostics_of(conversation, starters.drop_last(), uri, text);
        let start = starters.last();
        if occurs(uri, start.path@) {
            before.push(
                (start.resolved_range(text), thread_text(start, conversation.replies_of(start.id))),
            )
        } else {
            before
        }
    }
}

/// The conversations that `starters` start, written out one after the other.
pub open spec fn transcript_of(conversation: ConversationView, starters: Seq<ReviewComment>) -> Seq<
    char,
>
    decreases starters.len(),
{
    if starters.len() == 0 {
        Seq::empty()
    } else {
        transcript_of(conversation, starters.drop_last()) + block_text(
            starters.last(),
            conversation.replies_of(starters.last().id),
        )
    }
}

/// The conversations of a review hold the comments that reply to nothing as
/// starters, and for each of them the comments that reply to it, all in the order
/// of the review; a comment that starts no conversation has no replies.
pub proof fn lemma_grouped(comments: Seq<ReviewComment>)
    ensures
        grouped(comments).coherent(),
        grouped(comments).starters() == comments.filter(is_starter()),
        forall|id: u32|
            starts_conversation(comments, id) ==> #[trigger] grouped(comments).replies_of(id)
                == comments.filter(replies_to(id)),
        forall|id: u32|
            !starts_conversation(comments, id) ==> #[trigger] grouped(comments).replies_of(id)
                == Seq::<ReviewComment>::empty(),
{
    let all = grouped(comments);
    lemma_positions(comments, is_starter());
    assert forall|id: u32| starts_conversation(comments, id) implies #[trigger] all.replies_of(id)
        == comments.filter(replies_to(id)) by {
        lemma_positions(comments, replies_to(id));
    }
    assert forall|id: u32, k: int|
        all.replies.contains_key(id) && 0 <= k < all.replies[id].len() implies 0
        <= #[trigger] all.replies[id][k] < comments.len() by {
        lemma_positions(comments, replies_to(id));
    }
}

/// Whether each of the comments `starters` that is on a file whose path stands in
/// `uri` stands on lines of `text`.
pub open spec fn all_resolvable(
    starters: Seq<ReviewComment>,
    uri: Seq<char>,
    text: Seq<char>,
) -> bool {
    forall|k: int|
        0 <= k < starters.len() && occurs(uri, (#[trigger] starters[k]).path@)
            ==> starters[k].resolvable(text)
}

/// What an editor is to show at some lines of a file.
#[derive(Debug, Clone)]
pub struct Diagnostic {
    pub range: LineRange,
    pub message: String,
}

impl View for Diagnostic {
    type V = (Extent, Seq<char>);

    open spec fn view(&self) -> (Extent, Seq<char>) {
        (self.range@, self.message@)
    }
}

/// The models of the diagnostics `v`.
pub open spec fn diagnostic_views(v: Seq<Diagnostic>) -> Seq<(Extent, Seq<char>)> {
    Seq::new(v.len(), |i: int| v[i]@)
}

/// How wide a rule is, without the bars at its ends.
pub const NCOL: usize = 80;

/// A rule made of `c`: a line of `NCOL` of them between two bars.
pub open spec fn rule_text(c: char) -> Seq<char> {
    seq!['|'] + Seq::new(NCOL as nat, |i: int| c) + seq!['|', '\n']
}

/// One comment as a line of a transcript: its id in brackets, then its entry.
pub open spec fn labelled_entry(c: ReviewComment) -> Seq<char> {
    "["@ + decimal(c.id as nat) + "]"@ + entry_text(c) + "\n"@
}

/// The comments `cs` as lines of a transcript.
pub open spec fn labelled_entries(cs: Seq<ReviewComment>) -> Seq<char>
    decreases cs.len(),
{
    if cs.len() == 0 {
        Seq::empty()
    } else {
        labelled_entries(cs.drop_last()) + labelled_entry(cs.last())
    }
}

/// One conversation in a transcript: a rule, the file and the hunk that the
/// conversation is about, the comment that starts it and the replies to it, and
/// a rule.
pub open spec fn block_text(start: ReviewComment, replies: Seq<ReviewComment>) -> Seq<char> {
    rule_text('+') + start.path@ + "\n"@ + start.diff_hunk@ + "\n"@ + labelled_entry(start)
        + labelled_entries(replies) + rule_text('-')
}

/// Appends a rule made of `c` to `out`.
fn push_rule(out: &mut String, c: char)
    ensures
        final(out)@ == old(out)@ + rule_text(c),
{
    out.push('|');
    let mut i: usize = 0;
    while i < NCOL
        invariant
            i <= NCOL,
            out@ == old(out)@ + seq!['|'] + Seq::new(i as nat, |k: int| c),
        decreases NCOL - i,
    {
        out.push(c);
        i += 1;
    }
    out.push('|');
    out.push('\n');
}

/// Appends the comment `c` to `out` as a line of a transcript.
fn push_labelled_entry(out: &mut String, c: &ReviewComment)
    ensures
        final(out)@ == old(out)@ + labelled_entry(*c),
{
    out.append("[");
    push_decimal(out, c.id);
    out.append("]");
    append_entry(out, c);
    out.append("\n");
}

} // verus!
