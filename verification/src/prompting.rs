//! Text shaping around model calls: the messages of an ask, keyword
//! expansion of a search query, trimming context lines to a token budget,
//! cleaning Rust type names and reading `impl` signatures, chunking text for display, and the approval
//! choices offered before a change is applied.

use vstd::prelude::*;
use vstd::string::StringSliceAdditionalSpecFns;
use crate::grounding::{after_last_sep, after_last_separator};
use crate::preview::ReviewKey;
use crate::text::{find_in_range, find_seq, has_prefix, lemma_find_seq_bounds, string_of, is_ident_char, before_first, before_first_vec, strip_all_prefix_vec, trim_vec, chars_of, is_alnum, is_alphanumeric, lowercase_spec, push_char, strip_all_prefix, string_of_all, to_lowercase, trim};

verus! {

/// Byte chunks of `b` of `w` bytes each, the last one possibly shorter;
/// an empty input gives one empty chunk.
pub open spec fn byte_chunks(b: Seq<u8>, w: nat) -> Seq<Seq<u8>>
    decreases b.len(),
{
    if w == 0 || b.len() <= w {
        seq![b]
    } else {
        seq![b.take(w as int)] + byte_chunks(b.skip(w as int), w)
    }
}

/// Chunking partitions the bytes: the chunks joined give the input back;
/// with a positive width every chunk but the last has exactly that width
/// and the last has between one and that many bytes, except that an empty
/// input gives one empty chunk; with width zero the input is one chunk.
pub proof fn byte_chunks_partition(b: Seq<u8>, w: nat)
    ensures
        byte_chunks(b, w).flatten() == b,
        byte_chunks(b, w).len() >= 1,
        w == 0 || b.len() == 0 ==> byte_chunks(b, w) == seq![b],
        w > 0 ==> forall|i: int| 0 <= i < byte_chunks(b, w).len() - 1 ==> (#[trigger] byte_chunks(b, w)[i]).len() == w,
        w > 0 && b.len() > 0 ==> 1 <= byte_chunks(b, w).last().len() <= w,
    decreases b.len(),
{
    let cs = byte_chunks(b, w);
    if w == 0 || b.len() <= w {
        assert(cs.drop_first() =~= Seq::<Seq<u8>>::empty());
        assert(cs.flatten() == cs.first() + cs.drop_first().flatten());
        assert(cs.flatten() =~= b);
    } else {
        let rest = b.skip(w as int);
        byte_chunks_partition(rest, w);
        let rc = byte_chunks(rest, w);
        assert(cs.first() == b.take(w as int));
        assert(cs.drop_first() =~= rc);
        assert(cs.flatten() == cs.first() + cs.drop_first().flatten());
        assert(b.take(w as int) + rest =~= b);
        assert forall|i: int| 0 <= i < cs.len() - 1 implies (#[trigger] cs[i]).len() == w by {
            if i > 0 {
                assert(cs[i] == rc[i - 1]);
            }
        }
        assert(cs.last() == rc.last());
    }
}

/// Every cut `byte_chunks` makes falls on a character boundary.
pub open spec fn cuts_on_boundaries(b: Seq<u8>, w: nat) -> bool
    decreases b.len(),
{
    if w == 0 || b.len() <= w {
        true
    } else {
        vstd::utf8::is_char_boundary(b, w as int) && cuts_on_boundaries(b.skip(w as int), w)
    }
}

/// Splits `text` into consecutive pieces of `width` bytes (the last may be
/// shorter); with a width of zero, or an empty text, the text is one piece.
pub fn chunk_text<'a>(text: &'a str, width: usize) -> (r: Vec<&'a str>)
    requires
        cuts_on_boundaries(text.spec_bytes(), width as nat),
    ensures
        r@.map_values(|s: &str| s.spec_bytes()) == byte_chunks(text.spec_bytes(), width as nat),
{
    let mut chunks: Vec<&'a str> = Vec::new();
    if width == 0 {
        chunks.push(text);
        assert(chunks@.map_values(|s: &str| s.spec_bytes()) =~= seq![text.spec_bytes()]);
        return chunks;
    }
    let mut rest: &'a str = text;
    let ghost whole = text.spec_bytes();
    assert(chunks@.map_values(|s: &str| s.spec_bytes()) + byte_chunks(rest.spec_bytes(), width as nat) =~= byte_chunks(whole, width as nat));
    while rest.as_bytes().len() > width
        invariant
            width > 0,
            cuts_on_boundaries(rest.spec_bytes(), width as nat),
            chunks@.map_values(|s: &str| s.spec_bytes()) + byte_chunks(rest.spec_bytes(), width as nat) == byte_chunks(whole, width as nat),
        decreases rest.spec_bytes().len(),
    {
        let ghost before = chunks@.map_values(|s: &str| s.spec_bytes());
        let ghost rb = rest.spec_bytes();
        let (head, tail) = rest.split_at(width);
        chunks.push(head);
        assert(chunks@.map_values(|s: &str| s.spec_bytes()) =~= before.push(rb.take(width as int)));
        assert(byte_chunks(rb, width as nat) == seq![rb.take(width as int)] + byte_chunks(rb.skip(width as int), width as nat));
        assert(tail.spec_bytes() =~= rb.skip(width as int));
        rest = tail;
        assert(chunks@.map_values(|s: &str| s.spec_bytes()) + byte_chunks(rest.spec_bytes(), width as nat) =~= byte_chunks(whole, width as nat));
    }
    let ghost before = chunks@.map_values(|s: &str| s.spec_bytes());
    chunks.push(rest);
    assert(chunks@.map_values(|s: &str| s.spec_bytes()) =~= before.push(rest.spec_bytes()));
    assert(byte_chunks(rest.spec_bytes(), width as nat) == seq![rest.spec_bytes()]);
    assert(chunks@.map_values(|s: &str| s.spec_bytes()) =~= byte_chunks(whole, width as nat));
    chunks
}

/// The bare name of a Rust type as written in code: the text before any
/// `{` and `<`, trimmed, without leading `&` and `mut `, after its last
/// `::`, trimmed again.
pub open spec fn clean_type_spec(part: Seq<char>) -> Seq<char> {
    let cut = before_first(before_first(part, seq!['{']), seq!['<']);
    trim(after_last_sep(strip_all_prefix(strip_all_prefix(trim(cut), seq!['&']), seq!['m', 'u', 't', ' '])))
}

/// Removes generics, references, `mut` and module paths from a type name.
pub fn clean_rust_type_name(part: &str) -> (r: String)
    ensures
        r@ == clean_type_spec(part@),
{
    let brace = vec!['{'];
    let angle = vec!['<'];
    let amp = vec!['&'];
    let mut_ = vec!['m', 'u', 't', ' '];
    assert(brace@ =~= seq!['{']);
    assert(angle@ =~= seq!['<']);
    assert(amp@ =~= seq!['&']);
    assert(mut_@ =~= seq!['m', 'u', 't', ' ']);
    let v = chars_of(part);
    let a = before_first_vec(&v, &brace);
    let b = before_first_vec(&a, &angle);
    let c = trim_vec(&b);
    let d = strip_all_prefix_vec(&c, &amp);
    let e = strip_all_prefix_vec(&d, &mut_);
    let f = after_last_separator(&e);
    let g = trim_vec(&f);
    string_of_all(&g)
}

/// Arguments of the context lens: the task to size a context for, the
/// token budget (4096 unless given) and whether to print JSON.
pub struct ContextArgs {
    pub task_description: String,
    pub budget: usize,
    pub json: bool,
}

/// The trait and the type named by an `impl <Trait> for <Type>`
/// signature, each cleaned to its bare name; none when the signature does
/// not start with `impl` or has no ` for `.
pub open spec fn impl_relation_spec(sig: Seq<char>) -> Option<(Seq<char>, Seq<char>)> {
    if has_prefix(sig, seq!['i', 'm', 'p', 'l']) {
        match find_seq(sig, seq![' ', 'f', 'o', 'r', ' ']) {
            Some(i) => Some((clean_type_spec(sig.subrange(4, i)), clean_type_spec(sig.skip(i + 5)))),
            None => None,
        }
    } else {
        None
    }
}

/// Reads the implemented trait and the implementing type off an `impl`
/// signature, for the edges from a type to the trait it implements.
pub fn impl_relation(signature: &str) -> (r: Option<(String, String)>)
    ensures
        match impl_relation_spec(signature@) {
            Some((t, s)) => r matches Some((rt, rs)) && rt@ == t && rs@ == s,
            None => r is None,
        },
{
    let v = chars_of(signature);
    let impl_word = vec!['i', 'm', 'p', 'l'];
    let for_word = vec![' ', 'f', 'o', 'r', ' '];
    assert(impl_word@ =~= seq!['i', 'm', 'p', 'l']);
    assert(for_word@ =~= seq![' ', 'f', 'o', 'r', ' ']);
    if v.len() < 4 || v[0] != 'i' || v[1] != 'm' || v[2] != 'p' || v[3] != 'l' {
        assert(!has_prefix(v@, impl_word@)) by {
            if has_prefix(v@, impl_word@) {
                assert(v@.take(4)[0] == v@[0] && v@.take(4)[1] == v@[1]);
                assert(v@.take(4)[2] == v@[2] && v@.take(4)[3] == v@[3]);
            }
        }
        return None;
    }
    assert(v@.take(4) =~= impl_word@);
    assert(v@.subrange(0, v@.len() as int) =~= v@);
    match find_in_range(&v, 0, v.len(), &for_word) {
        Some(i) => {
            proof {
                lemma_find_seq_bounds(v@, for_word@);
                if i < 4 {
                    assert(v@.subrange(i as int, i + 5)[0] == v@[i as int]);
                }
            }
            let trait_part = string_of(&v, 4, i);
            let type_part = string_of(&v, i + 5, v.len());
            assert(v@.skip(i + 5) =~= v@.subrange(i + 5, v@.len() as int));
            Some((clean_rust_type_name(trait_part.as_str()), clean_rust_type_name(type_part.as_str())))
        },
        None => None,
    }
}

/// Maximal runs of identifier characters seen so far, and the run in
/// progress.
pub open spec fn ident_runs_acc(s: Seq<char>) -> (Seq<Seq<char>>, Seq<char>)
    decreases s.len(),
{
    if s.len() == 0 {
        (seq![], seq![])
    } else {
        let p = ident_runs_acc(s.drop_last());
        if is_ident_char(s.last()) {
            (p.0, p.1.push(s.last()))
        } else if p.1.len() > 0 {
            (p.0.push(p.1), seq![])
        } else {
            (p.0, seq![])
        }
    }
}

/// The maximal runs of letters, digits and underscores of `s`: its pieces
/// between other characters, empty pieces dropped.
pub open spec fn ident_runs(s: Seq<char>) -> Seq<Seq<char>> {
    let acc = ident_runs_acc(s);
    if acc.1.len() > 0 {
        acc.0.push(acc.1)
    } else {
        acc.0
    }
}

/// Words a search query drops.
pub open spec fn query_stopwords() -> Seq<Seq<char>> {
    seq![
        "where"@, "should"@, "how"@, "does"@, "what"@, "can"@, "the"@, "and"@, "for"@, "you"@,
        "file"@, "with"@, "this"@, "that"@, "from"@, "into"@, "onto"@, "your"@, "under"@, "over"@,
        "about"@, "there"@, "their"@, "here"@, "been"@, "have"@, "were"@,
    ]
}

/// A query word is kept when it is no stopword and takes at least two
/// bytes in UTF-8.
pub open spec fn keep_word(w: Seq<char>) -> bool {
    !query_stopwords().contains(w) && (w.len() >= 2 || (w.len() == 1 && w[0] > '\x7f'))
}

/// The kept words of `ws`, in order.
pub open spec fn kept_words(ws: Seq<Seq<char>>) -> Seq<Seq<char>>
    decreases ws.len(),
{
    if ws.len() == 0 {
        seq![]
    } else {
        let prev = kept_words(ws.drop_last());
        if keep_word(ws.last()) {
            prev.push(ws.last())
        } else {
            prev
        }
    }
}

/// `ws` joined with single spaces.
pub open spec fn join_spaces(ws: Seq<Seq<char>>) -> Seq<char>
    decreases ws.len(),
{
    if ws.len() == 0 {
        seq![]
    } else if ws.len() == 1 {
        ws[0]
    } else {
        join_spaces(ws.drop_last()) + seq![' '] + ws.last()
    }
}

/// The query followed by its kept lowercased words and the words that
/// steer a search towards definitions.
pub open spec fn expand_query_spec(q: Seq<char>) -> Seq<char> {
    let kept = kept_words(ident_runs(lowercase_spec(q)));
    q + (if kept.len() > 0 { seq![' '] + join_spaces(kept) } else { seq![] })
        + " struct impl trait interface function class definition module"@
}

/// Whether `w` is a query stopword.
fn is_stopword(w: &Vec<char>, stop: &Vec<String>) -> (r: bool)
    ensures
        r == crate::diff::strings_view(stop@).contains(w@),
{
    let mut i: usize = 0;
    while i < stop.len()
        invariant
            i <= stop@.len(),
            forall|k: int| 0 <= k < i ==> crate::diff::strings_view(stop@)[k] != w@,
        decreases stop@.len() - i,
    {
        let sv = chars_of(stop[i].as_str());
        assert(crate::diff::strings_view(stop@)[i as int] == sv@);
        if sv.len() == w.len() {
            assert(sv@.subrange(0, sv@.len() as int) =~= sv@);
            if crate::text::range_equals(&sv, 0, sv.len(), w) {
                return true;
            }
        }
        i = i + 1;
    }
    false
}

/// Adds the lowercased content words of a query, and words that steer the
/// search towards definitions, to a semantic search query.
pub fn expand_query_keywords(query_text: &str) -> (r: String)
    ensures
        r@ == expand_query_spec(query_text@),
{
    let lowered = to_lowercase(query_text);
    let v = chars_of(lowered.as_str());
    let stop = crate::grounding::strings_from_literals(
        &[
            "where", "should", "how", "does", "what", "can", "the", "and", "for", "you", "file",
            "with", "this", "that", "from", "into", "onto", "your", "under", "over", "about", "there",
            "their", "here", "been", "have", "were",
        ],
    );
    assert(crate::diff::strings_view(stop@) =~= query_stopwords());
    let mut kept: Vec<Vec<char>> = Vec::new();
    let mut cur: Vec<char> = Vec::new();
    let mut i: usize = 0;
    let ghost lv = v@;
    while i < v.len()
        invariant
            i <= v@.len(),
            lv == v@,
            crate::diff::strings_view(stop@) == query_stopwords(),
            kept@.map_values(|w: Vec<char>| w@) == kept_words(ident_runs_acc(lv.take(i as int)).0),
            cur@ == ident_runs_acc(lv.take(i as int)).1,
        decreases v@.len() - i,
    {
        assert(lv.take(i + 1).drop_last() =~= lv.take(i as int));
        assert(lv.take(i + 1).last() == v@[i as int]);
        let c = v[i];
        if is_alphanumeric(c) || c == '_' {
            cur.push(c);
        } else {
            if cur.len() > 0 {
                let ghost acc0 = ident_runs_acc(lv.take(i as int)).0;
                assert(acc0.push(cur@).drop_last() =~= acc0);
                let ghost before = kept@.map_values(|w: Vec<char>| w@);
                let word = cur;
                if !is_stopword(&word, &stop) && (word.len() >= 2 || (word.len() == 1 && word[0] > '\x7f')) {
                    kept.push(word);
                    assert(kept@.map_values(|w: Vec<char>| w@) =~= before.push(ident_runs_acc(lv.take(i as int)).1));
                }
            }
            cur = Vec::new();
        }
        i = i + 1;
    }
    assert(lv.take(v@.len() as int) =~= lv);
    if cur.len() > 0 {
        let ghost acc0 = ident_runs_acc(lv).0;
        assert(acc0.push(cur@).drop_last() =~= acc0);
        let ghost before = kept@.map_values(|w: Vec<char>| w@);
        if !is_stopword(&cur, &stop) && (cur.len() >= 2 || (cur.len() == 1 && cur[0] > '\x7f')) {
            kept.push(cur);
            assert(kept@.map_values(|w: Vec<char>| w@) =~= before.push(ident_runs_acc(lv).1));
        }
    }
    let ghost kv = kept@.map_values(|w: Vec<char>| w@);
    assert(kv == kept_words(ident_runs(lv)));
    let mut r = String::from_str(query_text);
    if kept.len() > 0 {
        push_char(&mut r, ' ');
        let ghost start = r@;
        let mut k: usize = 0;
        while k < kept.len()
            invariant
                k <= kept@.len(),
                kv == kept@.map_values(|w: Vec<char>| w@),
                r@ == start + join_spaces(kv.take(k as int)),
            decreases kept@.len() - k,
        {
            if k > 0 {
                push_char(&mut r, ' ');
            }
            let piece = string_of_all(&kept[k]);
            r.append(piece.as_str());
            assert(kv.take(k + 1).drop_last() =~= kv.take(k as int));
            assert(kv.take(k + 1).last() == kept@[k as int]@);
            proof {
                if k == 0 {
                    assert(kv.take(1) =~= seq![kv[0]]);
                }
            }
            assert(r@ =~= start + join_spaces(kv.take(k + 1)));
            k = k + 1;
        }
        assert(kv.take(kept@.len() as int) =~= kv);
    }
    r.append(" struct impl trait interface function class definition module");
    r
}

/// The number of leading lines kept within a token budget: lines are taken
/// in order while their running token total stays within the budget.
pub open spec fn kept_prefix(tokens: Seq<usize>, budget: int) -> nat
    decreases tokens.len(),
{
    if tokens.len() == 0 || tokens[0] > budget {
        0
    } else {
        1 + kept_prefix(tokens.drop_first(), budget - tokens[0])
    }
}

/// Sum of token counts.
pub open spec fn token_total(tokens: Seq<usize>) -> int
    decreases tokens.len(),
{
    if tokens.len() == 0 {
        0
    } else {
        tokens[0] + token_total(tokens.drop_first())
    }
}

/// The lines kept within a budget together cost no more than the budget,
/// and the first line left out (if any) would have gone over it.
pub proof fn kept_lines_fit_the_budget(tokens: Seq<usize>, budget: int)
    requires
        budget >= 0,
    ensures
        kept_prefix(tokens, budget) <= tokens.len(),
        token_total(tokens.take(kept_prefix(tokens, budget) as int)) <= budget,
        kept_prefix(tokens, budget) < tokens.len() ==> token_total(tokens.take(kept_prefix(tokens, budget) as int + 1)) > budget,
    decreases tokens.len(),
{
    if tokens.len() > 0 && tokens[0] <= budget {
        let rest = tokens.drop_first();
        kept_lines_fit_the_budget(rest, budget - tokens[0]);
        let k = kept_prefix(tokens, budget) as int;
        assert(tokens.take(k).drop_first() =~= rest.take(k - 1));
        assert(tokens.take(k)[0] == tokens[0]);
        if k < tokens.len() {
            assert(tokens.take(k + 1).drop_first() =~= rest.take(k));
            assert(tokens.take(k + 1)[0] == tokens[0]);
        }
    } else if tokens.len() > 0 {
        assert(tokens.take(1).drop_first() =~= Seq::<usize>::empty());
        assert(token_total(tokens.take(1).drop_first()) == 0);
        assert(tokens.take(1)[0] == tokens[0]);
        assert(tokens.take(0) =~= Seq::<usize>::empty());
    } else {
        assert(tokens.take(0) =~= Seq::<usize>::empty());
    }
}

/// `ls` joined with newlines.
pub open spec fn join_lines(ls: Seq<Seq<char>>) -> Seq<char>
    decreases ls.len(),
{
    if ls.len() == 0 {
        seq![]
    } else if ls.len() == 1 {
        ls[0]
    } else {
        join_lines(ls.drop_last()) + seq!['\n'] + ls.last()
    }
}

proof fn lemma_kept_prefix_step(tokens: Seq<usize>, budget: int, i: int, used: int)
    requires
        0 <= i < tokens.len(),
        kept_prefix(tokens, budget) == i + kept_prefix(tokens.skip(i), budget - used),
        tokens[i] <= budget - used,
    ensures
        kept_prefix(tokens, budget) == i + 1 + kept_prefix(tokens.skip(i + 1), budget - used - tokens[i]),
{
    assert(tokens.skip(i).drop_first() =~= tokens.skip(i + 1));
    assert(tokens.skip(i)[0] == tokens[i]);
}

/// Keeps the leading context lines whose token counts (`line_tokens`, one
/// per line) fit the budget together, stopping at the first line that
/// would exceed it, and joins them with newlines.
pub fn budget_trim_lines(candidate_lines: Vec<String>, line_tokens: &Vec<usize>, token_budget: usize) -> (r: String)
    requires
        line_tokens@.len() == candidate_lines@.len(),
    ensures
        r@ == join_lines(crate::diff::strings_view(candidate_lines@).take(kept_prefix(line_tokens@, token_budget as int) as int)),
{
    let ghost lines = crate::diff::strings_view(candidate_lines@);
    let mut used: usize = 0;
    let mut i: usize = 0;
    let mut stop = false;
    let mut r = String::new();
    assert(line_tokens@.skip(0) =~= line_tokens@);
    while i < candidate_lines.len() && !stop
        invariant
            i <= candidate_lines@.len() == line_tokens@.len(),
            lines == crate::diff::strings_view(candidate_lines@),
            used <= token_budget,
            !stop ==> kept_prefix(line_tokens@, token_budget as int) == i + kept_prefix(line_tokens@.skip(i as int), token_budget - used),
            stop ==> kept_prefix(line_tokens@, token_budget as int) == i,
            r@ == join_lines(lines.take(i as int)),
        decreases candidate_lines@.len() - i + if stop { 0int } else { 1int },
    {
        let t = line_tokens[i];
        if t > token_budget - used {
            assert(line_tokens@.skip(i as int)[0] == t);
            stop = true;
        } else {
            proof {
                lemma_kept_prefix_step(line_tokens@, token_budget as int, i as int, used as int);
            }
            if i > 0 {
                push_char(&mut r, '\n');
            }
            r.append(candidate_lines[i].as_str());
            assert(lines.take(i + 1).drop_last() =~= lines.take(i as int));
            proof {
                if i == 0 {
                    assert(lines.take(1) =~= seq![lines[0]]);
                }
            }
            assert(r@ =~= join_lines(lines.take(i + 1)));
            used = used + t;
            i = i + 1;
        }
    }
    proof {
        if !stop {
            assert(line_tokens@.skip(i as int).len() == 0);
        }
    }
    r
}

/// Who speaks a message to the model.
#[derive(Debug, Clone, Copy, PartialEq, Eq, Structural)]
pub enum MessageRole {
    System,
    User,
    Assistant,
}

/// One message of a model conversation.
#[derive(Debug, Clone)]
pub struct Message {
    pub role: MessageRole,
    pub content: String,
}

/// The user message of an ask: the graph context (or a notice that there
/// is none) and the question.
pub open spec fn ask_user_content(subgraph_text: Seq<char>, question: Seq<char>) -> Seq<char> {
    let section = if subgraph_text.len() == 0 { "No CRG index available for this repository."@ } else { subgraph_text };
    "## Code Context (CRG Subgraph)\n"@ + section + "\n\n## Question\n"@ + question
}

/// Builds the messages of an ask: the system prompt, then the user message
/// with the graph context and the question.
pub fn build_ask_messages(subgraph_text: &str, question: &str, system_prompt: &str) -> (r: Vec<Message>)
    ensures
        r@.len() == 2,
        r@[0].role == MessageRole::System,
        r@[0].content@ == system_prompt@,
        r@[1].role == MessageRole::User,
        r@[1].content@ == ask_user_content(subgraph_text@, question@),
{
    let mut user = String::from_str("## Code Context (CRG Subgraph)\n");
    if subgraph_text.is_empty() {
        user.append("No CRG index available for this repository.");
    } else {
        user.append(subgraph_text);
    }
    user.append("\n\n## Question\n");
    user.append(question);
    let mut r: Vec<Message> = Vec::new();
    r.push(Message { role: MessageRole::System, content: String::from_str(system_prompt) });
    r.push(Message { role: MessageRole::User, content: user });
    r
}

/// What an approval is asked for.
#[derive(Debug, Clone)]
pub enum ApprovalKind {
    FileWrite { path: String },
    GitCommit { message: String },
    SacredWrite { path: String },
}

/// Whether approvals are asked of a person or granted automatically.
#[derive(Debug, Clone, Copy, PartialEq, Eq, Structural)]
pub enum ApprovalMode {
    Interactive,
    Auto,
}

/// The answer to an approval request.
#[derive(Debug, Clone, Copy, PartialEq, Eq, Structural)]
pub enum ApprovalDecision {
    Accept,
    Reject,
    Edit,
    Quit,
}

/// The decision taken without asking: automatic mode accepts everything.
pub fn preset_decision(mode: ApprovalMode) -> (r: Option<ApprovalDecision>)
    ensures
        r == if mode == ApprovalMode::Auto { Some(ApprovalDecision::Accept) } else { None::<ApprovalDecision> },
{
    if mode == ApprovalMode::Auto {
        Some(ApprovalDecision::Accept)
    } else {
        None
    }
}

/// The decision a key stands for, case-insensitively: `y` accepts, `n`
/// rejects, `e` edits, `q` or escape quits; other keys mean nothing.
pub fn approval_key(key: ReviewKey) -> (r: Option<ApprovalDecision>)
    ensures
        r == match key {
            ReviewKey::Char(c) => if c == 'y' || c == 'Y' {
                Some(ApprovalDecision::Accept)
            } else if c == 'n' || c == 'N' {
                Some(ApprovalDecision::Reject)
            } else if c == 'e' || c == 'E' {
                Some(ApprovalDecision::Edit)
            } else if c == 'q' || c == 'Q' {
                Some(ApprovalDecision::Quit)
            } else {
                None
            },
            ReviewKey::Esc => Some(ApprovalDecision::Quit),
            ReviewKey::Other => None,
        },
{
    match key {
        ReviewKey::Char(c) => if c == 'y' || c == 'Y' {
            Some(ApprovalDecision::Accept)
        } else if c == 'n' || c == 'N' {
            Some(ApprovalDecision::Reject)
        } else if c == 'e' || c == 'E' {
            Some(ApprovalDecision::Edit)
        } else if c == 'q' || c == 'Q' {
            Some(ApprovalDecision::Quit)
        } else {
            None
        },
        ReviewKey::Esc => Some(ApprovalDecision::Quit),
        ReviewKey::Other => None,
    }
}

/// The separator line of the approval box: 48 box-drawing dashes.
pub open spec fn approval_rule() -> Seq<char> {
    Seq::new(48, |i: int| '─')
}

/// The lines of the approval box before any cost line: a rule, the
/// heading, what is to be done and on what.
pub open spec fn approval_lines_spec(kind: ApprovalKind) -> Seq<Seq<char>> {
    match kind {
        ApprovalKind::SacredWrite { path } => seq![
            approval_rule(),
            "⚠ SACRED FILE WRITE — APPROVAL REQUIRED"@,
            "  Action : Sacred file write"@,
            "  Path   : "@ + path@,
        ],
        ApprovalKind::FileWrite { path } => seq![
            approval_rule(),
            "APPROVAL REQUIRED"@,
            "  Action : Write file"@,
            "  Path   : "@ + path@,
        ],
        ApprovalKind::GitCommit { message } => seq![
            approval_rule(),
            "APPROVAL REQUIRED"@,
            "  Action : Git commit"@,
            "  Msg    : "@ + message@,
        ],
    }
}

/// The lines of the approval box that describe the request.
pub fn approval_box_lines(kind: &ApprovalKind) -> (r: Vec<String>)
    ensures
        crate::diff::strings_view(r@) == approval_lines_spec(*kind),
{
    let mut rule = String::new();
    let mut i: usize = 0;
    while i < 48
        invariant
            i <= 48,
            rule@ == Seq::new(i as nat, |k: int| '─'),
        decreases 48 - i,
    {
        push_char(&mut rule, '─');
        i = i + 1;
        assert(rule@ =~= Seq::new(i as nat, |k: int| '─'));
    }
    let mut r: Vec<String> = Vec::new();
    r.push(rule);
    match kind {
        ApprovalKind::SacredWrite { path } => {
            r.push(String::from_str("⚠ SACRED FILE WRITE — APPROVAL REQUIRED"));
            r.push(String::from_str("  Action : Sacred file write"));
            let mut l = String::from_str("  Path   : ");
            l.append(path.as_str());
            r.push(l);
        },
        ApprovalKind::FileWrite { path } => {
            r.push(String::from_str("APPROVAL REQUIRED"));
            r.push(String::from_str("  Action : Write file"));
            let mut l = String::from_str("  Path   : ");
            l.append(path.as_str());
            r.push(l);
        },
        ApprovalKind::GitCommit { message } => {
            r.push(String::from_str("APPROVAL REQUIRED"));
            r.push(String::from_str("  Action : Git commit"));
            let mut l = String::from_str("  Msg    : ");
            l.append(message.as_str());
            r.push(l);
        },
    }
    assert(crate::diff::strings_view(r@) =~= approval_lines_spec(*kind));
    r
}

} // verus!
