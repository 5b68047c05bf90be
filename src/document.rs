//! Text fragments and the word-window chunking that produces them.
use tokenizers::PostProcessor;
use vstd::prelude::*;

use crate::text::{
    chars_of, decimal, decimal_string, lower_char, lower_seq, push_char, push_str, same_text,
    string_of,
};

verus! {

/// A fragment of a document with a stable id.
#[derive(Debug, Clone)]
pub struct Chunk {
    pub id: String,
    pub text: String,
    pub token_estimate: usize,
    pub source_path: Option<String>,
}

/// The mathematical value of a `Chunk`.
pub struct ChunkView {
    pub id: Seq<char>,
    pub text: Seq<char>,
    pub token_estimate: nat,
    pub source_path: Option<Seq<char>>,
}

impl View for Chunk {
    type V = ChunkView;

    open spec fn view(&self) -> ChunkView {
        ChunkView {
            id: self.id@,
            text: self.text@,
            token_estimate: self.token_estimate as nat,
            source_path: path_view(self.source_path),
        }
    }
}

pub open spec fn path_view(p: Option<String>) -> Option<Seq<char>> {
    match p {
        Some(s) => Some(s@),
        None => None,
    }
}

/// Splits documents into chunks.
#[derive(Debug, Default)]
pub struct DocumentProcessor;

/// The document formats that can be read.
#[derive(Debug, Clone, Copy, PartialEq, Eq, Structural)]
pub enum DocumentKind {
    PlainText,
    Pdf,
}

/// Unicode's White_Space characters, which `char::is_whitespace` tests for.
pub open spec fn is_unicode_whitespace(c: char) -> bool {
    let u = c as u32;
    (0x09 <= u && u <= 0x0d) || u == 0x20 || u == 0x85 || u == 0xa0 || u == 0x1680 || (0x2000 <= u
        && u <= 0x200a) || u == 0x2028 || u == 0x2029 || u == 0x202f || u == 0x205f || u == 0x3000
}

/// The pieces of `s` between whitespace characters, empty ones included.
pub open spec fn whitespace_pieces(s: Seq<char>) -> Seq<Seq<char>>
    decreases s.len(),
{
    if s.len() == 0 {
        seq![Seq::empty()]
    } else {
        let p = whitespace_pieces(s.drop_last());
        if is_unicode_whitespace(s.last()) {
            p.push(Seq::empty())
        } else {
            p.update(p.len() - 1, p.last().push(s.last()))
        }
    }
}

/// The words of a text: its maximal runs of characters that are not
/// whitespace, in order.
pub open spec fn whitespace_words(s: Seq<char>) -> Seq<Seq<char>> {
    whitespace_pieces(s).filter(|w: Seq<char>| w.len() > 0)
}

/// Relies on str::split_whitespace: the maximal runs of characters without
/// the Unicode White_Space property, in order.
#[verifier::external_body]
fn split_words(s: &str) -> (r: Vec<String>)
    ensures
        r.deep_view() == whitespace_words(s@),
{
    s.split_whitespace().map(|w| w.to_string()).collect()
}

/// Declares tokenizers::Tokenizer, carried through as an opaque value.
#[verifier::external_type_specification]
#[verifier::external_body]
pub struct ExTokenizer(tokenizers::Tokenizer);

/// Relies on TokenizerImpl::get_truncation: the truncation limit and stride,
/// if the tokenizer truncates.
#[verifier::external_body]
fn truncation_of(tokenizer: &tokenizers::Tokenizer) -> (r: Option<(usize, usize)>) {
    tokenizer.get_truncation().map(|t| (t.max_length, t.stride))
}

/// Relies on TokenizerImpl::get_post_processor and
/// PostProcessor::added_tokens: how many special tokens the post-processor
/// adds to a single sequence, 0 without a post-processor.
#[verifier::external_body]
fn added_token_count(tokenizer: &tokenizers::Tokenizer) -> (r: usize) {
    tokenizer.get_post_processor().map(|p| p.added_tokens(false)).unwrap_or(0)
}

/// Relies on TokenizerImpl::get_padding: if the tokenizer pads, the fixed
/// length it pads to (`None` for padding to the longest sequence) and the
/// multiple it rounds up to.
#[verifier::external_body]
fn padding_of(tokenizer: &tokenizers::Tokenizer) -> (r: Option<(Option<usize>, Option<usize>)>) {
    tokenizer.get_padding().map(
        |p|
            match p.strategy {
                tokenizers::PaddingStrategy::Fixed(n) => (Some(n), p.pad_to_multiple_of),
                tokenizers::PaddingStrategy::BatchLongest => (None, p.pad_to_multiple_of),
            },
    )
}

/// Settings under which `encode` cannot panic in truncation or padding.
/// Truncation subtracts the added special tokens from the limit without a
/// check, and then asserts that the stride is below what is left unless
/// nothing is left. Padding to a fixed length or to a multiple can overflow
/// or allocate without bound; padding a single sequence to its own length
/// changes nothing.
pub open spec fn encode_settings_safe(
    truncation: Option<(usize, usize)>,
    added: usize,
    padding: Option<(Option<usize>, Option<usize>)>,
) -> bool {
    &&& match truncation {
        None => true,
        Some((max_length, stride)) => added <= max_length && (max_length - added == 0 || stride
            < max_length - added),
    }
    &&& match padding {
        None => true,
        Some((fixed, multiple)) => fixed is None && (multiple is None || multiple == Some(0usize)),
    }
}

/// Whether `encode_settings_safe` holds.
pub fn settings_safe(
    truncation: Option<(usize, usize)>,
    added: usize,
    padding: Option<(Option<usize>, Option<usize>)>,
) -> (r: bool)
    ensures
        r == encode_settings_safe(truncation, added, padding),
{
    let t = match truncation {
        None => true,
        Some((max_length, stride)) => added <= max_length && (max_length - added == 0 || stride
            < max_length - added),
    };
    let p = match padding {
        None => true,
        Some((fixed, multiple)) => fixed.is_none() && match multiple {
            None => true,
            Some(m) => m == 0,
        },
    };
    t && p
}

/// A tokenizer with its truncation and padding settings and its count of
/// added special tokens, read from it by `read` and never changed after, so
/// they are the settings `encode` runs with.
struct SettledTokenizer<'a> {
    tokenizer: &'a tokenizers::Tokenizer,
    truncation: Option<(usize, usize)>,
    added: usize,
    padding: Option<(Option<usize>, Option<usize>)>,
}

impl<'a> SettledTokenizer<'a> {
    fn read(tokenizer: &'a tokenizers::Tokenizer) -> (r: SettledTokenizer<'a>) {
        SettledTokenizer {
            tokenizer,
            truncation: truncation_of(tokenizer),
            added: added_token_count(tokenizer),
            padding: padding_of(tokenizer),
        }
    }

    fn is_safe(&self) -> (r: bool)
        ensures
            r == encode_settings_safe(self.truncation, self.added, self.padding),
    {
        settings_safe(self.truncation, self.added, self.padding)
    }
}

/// Relies on tokenizers::Tokenizer::encode (special tokens added) and
/// Encoding::get_ids: the number of token ids, or `None` where encoding
/// fails. The count depends on the tokenizer's model, so nothing is stated
/// of it. `encode` panics on truncation and padding settings outside
/// `encode_settings_safe`; the settings held beside the tokenizer are its own
/// (see `SettledTokenizer`).
#[verifier::external_body]
fn token_count(t: &SettledTokenizer, text: &str) -> (r: Option<usize>)
    requires
        encode_settings_safe(t.truncation, t.added, t.padding),
{
    t.tokenizer.encode(text, true).ok().map(|e| e.get_ids().len())
}

/// The words joined with single spaces.
pub open spec fn join_words(ws: Seq<Seq<char>>) -> Seq<char>
    decreases ws.len(),
{
    if ws.len() == 0 {
        Seq::empty()
    } else if ws.len() == 1 {
        ws[0]
    } else {
        join_words(ws.drop_last()) + seq![' '] + ws.last()
    }
}

pub open spec fn chunk_id(i: nat) -> Seq<char> {
    seq!['c', 'h', 'u', 'n', 'k', '-'] + decimal(i)
}

pub open spec fn min_nat(a: nat, b: nat) -> nat {
    if a <= b {
        a
    } else {
        b
    }
}

/// The word windows `[start, end)` over `n` words: each is `t` words long
/// (the last may be shorter), and each after the first begins `ov` words
/// before the end of the one before it.
pub open spec fn windows(n: nat, t: nat, ov: nat, start: nat) -> Seq<(nat, nat)>
    decreases n - start,
{
    if start >= n || t == 0 || ov >= t {
        Seq::empty()
    } else {
        let end = min_nat(start + t, n);
        if end == n {
            seq![(start, end)]
        } else {
            seq![(start, end)] + windows(n, t, ov, (end - min_nat(ov, (end - start) as nat)) as nat)
        }
    }
}

/// The chunk made of the words `[w.0, w.1)` as the `i`-th chunk.
pub open spec fn window_chunk(words: Seq<Seq<char>>, i: nat, w: (nat, nat), src: Option<Seq<char>>) -> ChunkView {
    ChunkView {
        id: chunk_id(i),
        text: join_words(words.subrange(w.0 as int, w.1 as int)),
        token_estimate: (w.1 - w.0) as nat,
        source_path: src,
    }
}

/// The chunks of `words` in windows of `t` words, overlapping by `ov` words.
pub open spec fn chunks_of(words: Seq<Seq<char>>, t: nat, ov: nat, src: Option<Seq<char>>) -> Seq<ChunkView> {
    let ws = windows(words.len(), t, ov, 0);
    Seq::new(ws.len(), |i: int| window_chunk(words, i as nat, ws[i], src))
}

pub open spec fn chunk_views(v: Seq<Chunk>) -> Seq<ChunkView> {
    v.map_values(|c: Chunk| c@)
}

fn copy_path(p: &Option<String>) -> (r: Option<String>)
    ensures
        path_view(r) == path_view(*p),
{
    match p {
        Some(s) => Some(s.clone()),
        None => None,
    }
}

fn join_range(words: &Vec<String>, start: usize, end: usize) -> (r: String)
    requires
        start < end <= words.len(),
    ensures
        r@ == join_words(words.deep_view().subrange(start as int, end as int)),
{
    let ghost ws = words.deep_view();
    let mut r = words[start].clone();
    assert(ws.subrange(start as int, start + 1) =~= seq![ws[start as int]]);
    let mut i: usize = start + 1;
    while i < end
        invariant
            ws == words.deep_view(),
            start < i <= end <= words.len(),
            r@ == join_words(ws.subrange(start as int, i as int)),
        decreases end - i,
    {
        push_char(&mut r, ' ');
        push_str(&mut r, words[i].as_str());
        assert(ws.subrange(start as int, i + 1).drop_last() =~= ws.subrange(start as int, i as int));
        i = i + 1;
    }
    r
}

/// Chunks over a precomputed word list.
fn chunk_words(words: &Vec<String>, t: usize, ov: usize, source_path: &Option<String>) -> (r: Vec<Chunk>)
    requires
        t > ov,
    ensures
        chunk_views(r@) == chunks_of(words.deep_view(), t as nat, ov as nat, path_view(*source_path)),
{
    let ghost ws = words.deep_view();
    let ghost n = words.len() as nat;
    let ghost src = path_view(*source_path);
    let ghost all = windows(n, t as nat, ov as nat, 0);
    let mut chunks: Vec<Chunk> = Vec::new();
    if words.len() == 0 {
        assert(chunk_views(chunks@) =~= chunks_of(ws, t as nat, ov as nat, src));
        return chunks;
    }
    let mut start: usize = 0;
    let mut idx: usize = 0;
    let mut done: bool = false;
    let ghost mut seen: Seq<(nat, nat)> = Seq::empty();
    while !done
        invariant
            ws == words.deep_view(),
            n == words.len(),
            t > ov,
            all == windows(n, t as nat, ov as nat, 0),
            src == path_view(*source_path),
            idx == seen.len() == chunks.len(),
            done ==> all == seen,
            !done ==> all == seen + windows(n, t as nat, ov as nat, start as nat),
            !done ==> start < n,
            !done ==> idx <= start,
            idx <= n,
            forall|i: int| 0 <= i < idx ==> (#[trigger] chunk_views(chunks@)[i]) == window_chunk(ws, i as nat, seen[i], src),
        decreases (if done { 0 } else { n - start + 1 }),
    {
        let end = if t <= words.len() - start {
            start + t
        } else {
            words.len()
        };
        let text = join_range(words, start, end);
        let mut id = String::new();
        push_str(&mut id, "chunk-");
        let digits = decimal_string(idx);
        push_str(&mut id, digits.as_str());
        proof {
            reveal_strlit("chunk-");
            assert("chunk-"@ =~= seq!['c', 'h', 'u', 'n', 'k', '-']);
        }
        let sp = copy_path(source_path);
        let c = Chunk { id, text, token_estimate: end - start, source_path: sp };
        let ghost w = (start as nat, end as nat);
        assert(c.id@ =~= chunk_id(idx as nat));
        assert(c.text@ == join_words(ws.subrange(w.0 as int, w.1 as int)));
        assert(c@.source_path == src);
        assert(c@.token_estimate == (w.1 - w.0) as nat);
        assert(c@ == window_chunk(ws, idx as nat, w, src));
        let ghost old_chunks = chunks@;
        chunks.push(c);
        assert(chunk_views(chunks@) =~= chunk_views(old_chunks).push(c@));
        proof {
            seen = seen.push(w);
        }
        idx = idx + 1;
        if end == words.len() {
            assert(all =~= seen);
            done = true;
        } else {
            let back = if ov <= end - start {
                ov
            } else {
                end - start
            };
            assert(all =~= seen + windows(n, t as nat, ov as nat, (end - back) as nat));
            start = end - back;
        }
    }
    assert(chunk_views(chunks@) =~= chunks_of(ws, t as nat, ov as nat, src));
    chunks
}

/// The chunks for a text of `n` tokens: one per token window, each holding
/// the whole text.
pub open spec fn token_chunks(text: Seq<char>, n: nat, t: nat, ov: nat, src: Option<Seq<char>>) -> Seq<ChunkView> {
    let ws = windows(n, t, ov, 0);
    Seq::new(
        ws.len(),
        |i: int|
            ChunkView {
                id: chunk_id(i as nat),
                text: text,
                token_estimate: (ws[i].1 - ws[i].0) as nat,
                source_path: src,
            },
    )
}

fn chunk_tokens(text: &str, n: usize, t: usize, ov: usize, source_path: &Option<String>) -> (r: Vec<Chunk>)
    requires
        t > ov,
    ensures
        chunk_views(r@) == token_chunks(text@, n as nat, t as nat, ov as nat, path_view(*source_path)),
{
    let ghost src = path_view(*source_path);
    let ghost all = windows(n as nat, t as nat, ov as nat, 0);
    let ghost spec_r = token_chunks(text@, n as nat, t as nat, ov as nat, src);
    let mut chunks: Vec<Chunk> = Vec::new();
    if n == 0 {
        assert(chunk_views(chunks@) =~= spec_r);
        return chunks;
    }
    let mut start: usize = 0;
    let mut idx: usize = 0;
    let mut done: bool = false;
    let ghost mut seen: Seq<(nat, nat)> = Seq::empty();
    while !done
        invariant
            t > ov,
            all == windows(n as nat, t as nat, ov as nat, 0),
            src == path_view(*source_path),
            idx == seen.len() == chunks.len(),
            done ==> all == seen,
            !done ==> all == seen + windows(n as nat, t as nat, ov as nat, start as nat),
            !done ==> start < n,
            !done ==> idx <= start,
            idx <= n,
            forall|i: int|
                0 <= i < idx ==> (#[trigger] chunk_views(chunks@)[i]) == (ChunkView {
                    id: chunk_id(i as nat),
                    text: text@,
                    token_estimate: (seen[i].1 - seen[i].0) as nat,
                    source_path: src,
                }),
        decreases (if done { 0 } else { n - start + 1 }),
    {
        let end = if t <= n - start {
            start + t
        } else {
            n
        };
        let mut id = String::new();
        push_str(&mut id, "chunk-");
        let digits = decimal_string(idx);
        push_str(&mut id, digits.as_str());
        proof {
            reveal_strlit("chunk-");
            assert("chunk-"@ =~= seq!['c', 'h', 'u', 'n', 'k', '-']);
        }
        let mut body = String::new();
        push_str(&mut body, text);
        let sp = copy_path(source_path);
        let c = Chunk { id, text: body, token_estimate: end - start, source_path: sp };
        assert(c.id@ =~= chunk_id(idx as nat));
        let ghost old_chunks = chunks@;
        chunks.push(c);
        assert(chunk_views(chunks@) =~= chunk_views(old_chunks).push(c@));
        proof {
            seen = seen.push((start as nat, end as nat));
        }
        idx = idx + 1;
        if end == n {
            assert(all =~= seen);
            done = true;
        } else {
            let back = if ov <= end - start {
                ov
            } else {
                end - start
            };
            assert(all =~= seen + windows(n as nat, t as nat, ov as nat, (end - back) as nat));
            start = end - back;
        }
    }
    assert(chunk_views(chunks@) =~= spec_r);
    chunks
}

/// The format of a document given its file extension, matched without
/// regard to ASCII case.
pub open spec fn kind_of_extension(ext: Seq<char>) -> Option<DocumentKind> {
    let e = lower_seq(ext);
    if e == "txt"@ || e == "text"@ || e == "md"@ || e == "markdown"@ {
        Some(DocumentKind::PlainText)
    } else if e == "pdf"@ {
        Some(DocumentKind::Pdf)
    } else {
        None
    }
}

/// The format of a document given its file extension; `None` for a format
/// that cannot be read.
pub fn document_kind(ext: &str) -> (r: Option<DocumentKind>)
    ensures
        r == kind_of_extension(ext@),
{
    let cs = chars_of(ext);
    let mut low: Vec<char> = Vec::new();
    let mut i: usize = 0;
    while i < cs.len()
        invariant
            cs@ == ext@,
            i <= cs.len(),
            low@ == lower_seq(ext@).take(i as int),
        decreases cs.len() - i,
    {
        low.push(lower_char(cs[i]));
        i = i + 1;
        assert(low@ =~= lower_seq(ext@).take(i as int));
    }
    assert(low@ =~= lower_seq(ext@));
    let e = string_of(&low);
    let s = e.as_str();
    if same_text(s, "txt") || same_text(s, "text") || same_text(s, "md") || same_text(s, "markdown") {
        Some(DocumentKind::PlainText)
    } else if same_text(s, "pdf") {
        Some(DocumentKind::Pdf)
    } else {
        None
    }
}

impl DocumentProcessor {
    /// Splits `text` into consecutive chunks of `target_tokens` words.
    pub fn chunk_text(text: &str, target_tokens: usize, source_path: Option<String>) -> (r: Vec<Chunk>)
        requires
            target_tokens > 0,
        ensures
            chunk_views(r@) == chunks_of(
                whitespace_words(text@),
                target_tokens as nat,
                0,
                path_view(source_path),
            ),
    {
        let words = split_words(text);
        chunk_words(&words, target_tokens, 0, &source_path)
    }

    /// Splits `text` into chunks of `target_tokens` words, each after the
    /// first starting `overlap` words before the end of the one before it.
    /// A zero target gives no chunks.
    pub fn chunk_text_with_overlap(
        text: &str,
        target_tokens: usize,
        overlap: usize,
        source_path: Option<String>,
    ) -> (r: Vec<Chunk>)
        requires
            target_tokens == 0 || overlap < target_tokens,
        ensures
            target_tokens == 0 ==> r@.len() == 0,
            target_tokens > 0 ==> chunk_views(r@) == chunks_of(
                whitespace_words(text@),
                target_tokens as nat,
                overlap as nat,
                path_view(source_path),
            ),
    {
        if target_tokens == 0 {
            return Vec::new();
        }
        let words = split_words(text);
        chunk_words(&words, target_tokens, overlap, &source_path)
    }

    /// Chunks by token windows when the text's token count is known (each
    /// chunk then holds the whole text), by word windows otherwise. A zero
    /// target gives no chunks.
    pub fn chunk_by_token_count(
        text: &str,
        token_count: Option<usize>,
        target_tokens: usize,
        overlap: usize,
        source_path: Option<String>,
    ) -> (r: Vec<Chunk>)
        requires
            target_tokens == 0 || overlap < target_tokens,
        ensures
            target_tokens == 0 ==> r@.len() == 0,
            target_tokens > 0 ==> chunk_views(r@) == match token_count {
                Some(n) => token_chunks(
                    text@,
                    n as nat,
                    target_tokens as nat,
                    overlap as nat,
                    path_view(source_path),
                ),
                None => chunks_of(
                    whitespace_words(text@),
                    target_tokens as nat,
                    overlap as nat,
                    path_view(source_path),
                ),
            },
    {
        if target_tokens == 0 {
            return Vec::new();
        }
        match token_count {
            Some(n) => chunk_tokens(text, n, target_tokens, overlap, &source_path),
            None => Self::chunk_text_with_overlap(text, target_tokens, overlap, source_path),
        }
    }

    /// Chunks `text` by windows over its tokens under `tokenizer`; where the
    /// tokenizer fails, or its truncation or padding settings would make
    /// encoding panic (see `encode_settings_safe`), by word windows as
    /// `chunk_text_with_overlap` does.
    pub fn chunk_with_tokenizer(
        tokenizer: &tokenizers::Tokenizer,
        text: &str,
        target_tokens: usize,
        overlap: usize,
        source_path: Option<String>,
    ) -> (r: Vec<Chunk>)
        requires
            target_tokens == 0 || overlap < target_tokens,
        ensures
            target_tokens == 0 ==> r@.len() == 0,
            target_tokens > 0 ==> {
                ||| chunk_views(r@) == chunks_of(
                    whitespace_words(text@),
                    target_tokens as nat,
                    overlap as nat,
                    path_view(source_path),
                )
                ||| exists|n: nat|
                    chunk_views(r@) == #[trigger] token_chunks(
                        text@,
                        n,
                        target_tokens as nat,
                        overlap as nat,
                        path_view(source_path),
                    )
            },
    {
        if target_tokens == 0 {
            return Vec::new();
        }
        let settled = SettledTokenizer::read(tokenizer);
        let count = if settled.is_safe() {
            token_count(&settled, text)
        } else {
            None
        };
        Self::chunk_by_token_count(text, count, target_tokens, overlap, source_path)
    }
}

} // verus!
