use std::ops::Range;
use vstd::prelude::*;
use vstd::string::{StrSliceExecFns, StringExecFns};

verus! {

/// What a token denotes: the characters of its buffer, a half-open span of
/// character positions into it, and its tags as character sequences.
pub struct TokenView {
    pub body: Seq<char>,
    pub start: int,
    pub end: int,
    pub tags: Seq<Seq<char>>,
}

impl TokenView {
    /// The span lies inside the buffer.
    pub open spec fn wf(self) -> bool {
        0 <= self.start <= self.end <= self.body.len()
    }

    /// The characters that the span selects.
    pub open spec fn content(self) -> Seq<char> {
        self.body.subrange(self.start, self.end)
    }

    /// The zero-length token over an empty buffer, with no tags.
    pub open spec fn empty() -> TokenView {
        TokenView { body: Seq::empty(), start: 0, end: 0, tags: Seq::empty() }
    }

    /// The diagnostic rendering: the quoted content, then each tag followed
    /// by `; `.
    pub open spec fn rendered(self) -> Seq<char> {
        debug_quoted(self.content()) + ": "@ + tag_list(self.tags)
    }
}

/// Each tag followed by `; `, in order.
pub open spec fn tag_list(tags: Seq<Seq<char>>) -> Seq<char>
    decreases tags.len(),
{
    if tags.len() == 0 {
        Seq::empty()
    } else {
        tag_list(tags.drop_last()) + tags.last() + "; "@
    }
}

/// The text that `{:?}` writes for a string: the characters between double
/// quotes, with escapes.
pub uninterp spec fn debug_quoted(s: Seq<char>) -> Seq<char>;

/// Relies on std's `Debug` for `str` (through `format!("{:?}")`): the text
/// depends on the characters alone.
#[verifier::external_body]
fn quoted(s: &str) -> (r: String)
    ensures
        r@ == debug_quoted(s@),
{
    format!("{:?}", s)
}

/// Whether two strings hold the same characters.
fn same_chars(a: &str, b: &str) -> (r: bool)
    ensures
        r == (a@ == b@),
{
    let n = a.unicode_len();
    if n != b.unicode_len() {
        return false;
    }
    let mut i: usize = 0;
    while i < n
        invariant
            n == a@.len() == b@.len(),
            i <= n,
            a@.subrange(0, i as int) == b@.subrange(0, i as int),
        decreases n - i,
    {
        if a.get_char(i) != b.get_char(i) {
            assert(a@[i as int] != b@[i as int]);
            return false;
        }
        i = i + 1;
        assert(a@.subrange(0, i as int) =~= b@.subrange(0, i as int));
    }
    assert(a@ =~= a@.subrange(0, n as int));
    assert(b@ =~= b@.subrange(0, n as int));
    true
}

/// The character sequences of a list of tags.
pub open spec fn tags_view<'a>(tags: Seq<&'a str>) -> Seq<Seq<char>> {
    tags.map_values(|t: &'a str| t@)
}

/// What a sequence of tokens denotes, token by token.
pub open spec fn views<'a>(s: Seq<Token<'a>>) -> Seq<TokenView> {
    s.map_values(|t: Token<'a>| t@)
}

/// The token that merging `run` gives: it spans from the first token's start
/// to the last token's end over the first token's buffer, and carries `tags`.
pub open spec fn wrapped(run: Seq<TokenView>, tags: Seq<Seq<char>>) -> TokenView {
    if run.len() == 0 {
        TokenView::empty()
    } else {
        TokenView { body: run[0].body, start: run[0].start, end: run.last().end, tags }
    }
}

/// The contents of the tokens of `run`, one after another.
pub open spec fn joined(run: Seq<TokenView>) -> Seq<char>
    decreases run.len(),
{
    if run.len() == 0 {
        Seq::empty()
    } else {
        joined(run.drop_last()) + run.last().content()
    }
}

/// Every token of `run` lies inside the first one's buffer, and each one
/// ends where the next one starts.
pub open spec fn is_contiguous(run: Seq<TokenView>) -> bool {
    &&& forall|i: int| 0 <= i < run.len() ==> (#[trigger] run[i]).wf() && run[i].body == run[0].body
    &&& forall|i: int| 0 <= i < run.len() - 1 ==> (#[trigger] run[i]).end == run[i + 1].start
}

/// A lexical unit: a span of character positions into a shared, immutable
/// buffer, annotated with an ordered list of tags.
#[derive(PartialEq, Debug)]
pub struct Token<'a> {
    pub body: &'a str,
    pub indices: Range<usize>,
    pub tags: Vec<&'a str>,
}

impl<'a> View for Token<'a> {
    type V = TokenView;

    open spec fn view(&self) -> TokenView {
        TokenView {
            body: self.body@,
            start: self.indices.start as int,
            end: self.indices.end as int,
            tags: tags_view(self.tags@),
        }
    }
}

impl<'a> Clone for Token<'a> {
    /// A token over the same buffer, with the same span and the same tags.
    fn clone(&self) -> (r: Self)
        ensures
            r@ == self@,
    {
        let mut tags: Vec<&'a str> = Vec::new();
        let mut i: usize = 0;
        while i < self.tags.len()
            invariant
                i <= self.tags@.len(),
                tags@ == self.tags@.subrange(0, i as int),
            decreases self.tags@.len() - i,
        {
            tags.push(self.tags[i]);
            i = i + 1;
            assert(tags@ =~= self.tags@.subrange(0, i as int));
        }
        assert(tags@ =~= self.tags@);
        Token {
            body: self.body,
            indices: Range { start: self.indices.start, end: self.indices.end },
            tags,
        }
    }
}

impl<'a> Default for Token<'a> {
    /// The empty token.
    fn default() -> (r: Self)
        ensures
            r@ == TokenView::empty(),
    {
        empty_token()
    }
}

impl<'a> Token<'a> {
    /// The characters of the buffer that the span selects.
    pub fn content(&'a self) -> (r: &'a str)
        requires
            self@.wf(),
        ensures
            r@ == self@.content(),
    {
        self.body.substring_char(self.indices.start, self.indices.end)
    }

    /// Whether one of the tags holds exactly the characters of `tag`.
    pub fn has_tag(&self, tag: &str) -> (r: bool)
        ensures
            r == self@.tags.contains(tag@),
    {
        let mut i: usize = 0;
        while i < self.tags.len()
            invariant
                i <= self.tags@.len(),
                forall|j: int| 0 <= j < i ==> self@.tags[j] != tag@,
            decreases self.tags@.len() - i,
        {
            if same_chars(self.tags[i], tag) {
                assert(self@.tags[i as int] == tag@);
                return true;
            }
            i = i + 1;
        }
        false
    }

    /// The first character of the content, if the content is not empty.
    pub fn single_char(&self) -> (r: Option<char>)
        requires
            self@.wf(),
        ensures
            r == (if self@.content().len() > 0 {
                Some(self@.content()[0])
            } else {
                None
            }),
    {
        if self.indices.start < self.indices.end {
            Some(self.body.get_char(self.indices.start))
        } else {
            None
        }
    }

    /// The diagnostic rendering of the token: its content quoted as `{:?}`
    /// writes a string, a colon, then each tag followed by `; `.
    pub fn render(&self) -> (r: String)
        requires
            self@.wf(),
        ensures
            r@ == self@.rendered(),
    {
        let content = self.body.substring_char(self.indices.start, self.indices.end);
        let q = quoted(content);
        self.render_with_quoted(q.as_str())
    }

    /// The rendering of the token, given its content already quoted: `quoted`,
    /// a colon, then each tag followed by `; `.
    pub fn render_with_quoted(&self, quoted: &str) -> (r: String)
        ensures
            r@ == quoted@ + ": "@ + tag_list(self@.tags),
    {
        let mut r = String::from_str(quoted);
        r.append(": ");
        proof {
            reveal_strlit(": ");
            reveal_strlit("; ");
        }
        let mut i: usize = 0;
        while i < self.tags.len()
            invariant
                i <= self.tags@.len(),
                r@ == quoted@ + ": "@ + tag_list(self@.tags.subrange(0, i as int)),
            decreases self.tags@.len() - i,
        {
            r.append(self.tags[i]);
            r.append("; ");
            proof {
                let before = self@.tags.subrange(0, i as int);
                let after = self@.tags.subrange(0, i + 1);
                assert(after.drop_last() =~= before);
                assert(r@ =~= quoted@ + ": "@ + tag_list(after));
            }
            i = i + 1;
        }
        assert(self@.tags.subrange(0, i as int) =~= self@.tags);
        r
    }
}

/// A token whose buffer is exactly `content` and whose span covers all of it.
pub fn token_from_string<'a>(content: &'a str, tags: Vec<&'a str>) -> (r: Token<'a>)
    ensures
        r.body == content,
        r@ == (TokenView { body: content@, start: 0, end: content@.len() as int, tags: tags_view(tags@) }),
{
    let n = content.unicode_len();
    Token { body: content, indices: Range { start: 0, end: n }, tags }
}

/// One token per character of `body`, tagged with that character alone, in
/// order, followed by one empty token that marks the end of the input.
pub fn str_to_tokens<'a>(body: &'a str) -> (r: Vec<Token<'a>>)
    ensures
        r@.len() == body@.len() + 1,
        forall|i: int|
            0 <= i < body@.len() ==> (#[trigger] r@[i]).body == body && r@[i]@ == (TokenView {
                body: body@,
                start: i,
                end: i + 1,
                tags: seq![seq![body@[i]]],
            }),
        r@.last()@ == TokenView::empty(),
{
    let n = body.unicode_len();
    let mut tokens: Vec<Token<'a>> = Vec::new();
    let mut i: usize = 0;
    while i < n
        invariant
            n == body@.len(),
            i <= n,
            tokens@.len() == i,
            forall|j: int|
                0 <= j < i ==> (#[trigger] tokens@[j]).body == body && tokens@[j]@ == (TokenView {
                    body: body@,
                    start: j,
                    end: j + 1,
                    tags: seq![seq![body@[j]]],
                }),
        decreases n - i,
    {
        let ch = body.substring_char(i, i + 1);
        let tags: Vec<&'a str> = vec![ch];
        let t = Token { body, indices: Range { start: i, end: i + 1 }, tags };
        assert(ch@ =~= seq![body@[i as int]]);
        assert(t@.tags =~= seq![seq![body@[i as int]]]);
        tokens.push(t);
        i = i + 1;
    }
    tokens.push(empty_token());
    tokens
}

/// Merges a run of consecutive tokens into one token that spans from the
/// first one's start to the last one's end, with `tags` in place of theirs.
/// An empty run gives the empty token.
pub fn wrap<'a>(tokens: Vec<Token<'a>>, tags: Vec<&'a str>) -> (r: Token<'a>)
    ensures
        r@ == wrapped(views(tokens@), tags_view(tags@)),
        tokens@.len() > 0 ==> r.body == tokens@[0].body,
{
    if tokens.len() == 0 {
        let r = empty_token();
        return r;
    }
    let last = tokens.len() - 1;
    Token {
        body: tokens[0].body,
        indices: Range { start: tokens[0].indices.start, end: tokens[last].indices.end },
        tags,
    }
}

/// The shape of a sequence of tokens: none, exactly one, or more than one.
pub enum TokenStructure<'a> {
    Multiple,
    Single(&'a Token<'a>),
    Empty,
}

/// Classifies `tokens` by how many there are; for exactly one, gives it.
pub fn tokens_structure<'a>(tokens: &'a Vec<Token<'a>>) -> (r: TokenStructure<'a>)
    ensures
        tokens@.len() == 0 <==> r is Empty,
        tokens@.len() == 1 <==> r is Single,
        tokens@.len() > 1 <==> r is Multiple,
        r is Single ==> *r->Single_0 == tokens@[0],
{
    if tokens.len() == 1 {
        TokenStructure::Single(&tokens[0])
    } else if tokens.len() > 1 {
        TokenStructure::Multiple
    } else {
        TokenStructure::Empty
    }
}

/// A token with no contents over an empty buffer, and no tags.
pub fn empty_token() -> (r: Token<'static>)
    ensures
        r@ == TokenView::empty(),
{
    let body = "";
    proof {
        reveal_strlit("");
    }
    let r = Token { body, indices: Range { start: 0, end: 0 }, tags: Vec::new() };
    assert(r@.tags =~= Seq::<Seq<char>>::empty());
    assert(r@.body =~= Seq::<char>::empty());
    r
}

} // verus!
