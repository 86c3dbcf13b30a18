//! Token classification. The external grammar engine hands in, per leaf of
//! the syntax tree, plain values: the leaf's category name, the structural
//! role assigned by its parent, the parent and grandparent category names,
//! the token text and its byte range. Classification inspects that context
//! and tags each identifier-like token with the role its name plays, so the
//! normalizer can collapse identifier names to role symbols.

use vstd::prelude::*;
use vstd::string::*;

verus! {

/// The classification of one token.
#[derive(Clone, Copy, Debug, PartialEq, Eq, Structural)]
pub enum TokenKind {
    /// An identifier naming a function, method, or call target.
    NameFunction,
    /// An identifier naming a class, struct, or object-like type.
    NameClass,
    /// Any other identifier.
    Name,
    /// Everything else: keywords, operators, punctuation, literals.
    Text,
}

/// A classified token: its text, classification, and byte range in the
/// original source.
#[derive(Debug)]
pub struct Token {
    pub text: Vec<u8>,
    pub kind: TokenKind,
    pub start_byte: usize,
    pub end_byte: usize,
}

impl Token {
    pub fn new(text: Vec<u8>, kind: TokenKind, start_byte: usize, end_byte: usize) -> (r: Token)
        ensures
            r.text@ == text@,
            r.kind == kind,
            r.start_byte == start_byte,
            r.end_byte == end_byte,
    {
        Token { text, kind, start_byte, end_byte }
    }
}

/// One leaf of the syntax tree, as plain values: everything classification
/// reads about a token's syntactic context.
#[derive(Debug)]
pub struct TreeItem {
    /// The leaf's own syntactic category name.
    pub kind: String,
    /// The structural-role label assigned by the parent (or the sentinel
    /// text the tree walker uses when there is none).
    pub field: String,
    /// The parent's category name, if the leaf has a parent.
    pub parent_kind: Option<String>,
    /// The grandparent's category name, if the parent has a parent.
    pub grandparent_kind: Option<String>,
    /// The token text, as source bytes.
    pub text: Vec<u8>,
    pub start_byte: usize,
    pub end_byte: usize,
}

/// `needle` occurs contiguously inside `hay`.
pub open spec fn seq_contains_sub(hay: Seq<char>, needle: Seq<char>) -> bool {
    exists|i: int|
        0 <= i <= hay.len() - needle.len() && #[trigger] hay.subrange(i, i + needle.len() as int)
            == needle
}

/// Substring search, character by character.
pub fn contains_sub(hay: &str, needle: &str) -> (r: bool)
    ensures
        r == seq_contains_sub(hay@, needle@),
{
    let hlen: usize = hay.unicode_len();
    let nlen: usize = needle.unicode_len();
    if nlen > hlen {
        return false;
    }
    let mut i: usize = 0;
    while i <= hlen - nlen
        invariant
            hlen == hay@.len(),
            nlen == needle@.len(),
            nlen <= hlen,
            0 <= i <= hlen - nlen + 1,
            forall|p: int| 0 <= p < i ==> #[trigger] hay@.subrange(p, p + nlen as int) != needle@,
        decreases hlen + 1 - nlen - i,
    {
        let mut j: usize = 0;
        let mut is_match: bool = true;
        while j < nlen
            invariant
                hlen == hay@.len(),
                nlen == needle@.len(),
                0 <= i <= hlen - nlen,
                0 <= j <= nlen,
                is_match <==> (forall|q: int| 0 <= q < j ==> hay@[i + q] == needle@[q]),
            decreases nlen - j,
        {
            if hay.get_char(i + j) != needle.get_char(j) {
                is_match = false;
            }
            j = j + 1;
        }
        if is_match {
            proof {
                assert(hay@.subrange(i as int, i + nlen as int) =~= needle@);
            }
            return true;
        }
        proof {
            let q = choose|q: int| 0 <= q < nlen && hay@[i + q] != needle@[q];
            assert(hay@.subrange(i as int, i + nlen as int)[q] == hay@[i + q]);
        }
        i = i + 1;
    }
    return false;
}

/// The category or role names a class/struct/object-like construct.
pub open spec fn spec_is_class(kind: Seq<char>, field: Seq<char>) -> bool {
    ||| seq_contains_sub(kind, "class"@)
    ||| seq_contains_sub(field, "class"@)
    ||| seq_contains_sub(kind, "struct"@)
    ||| seq_contains_sub(field, "struct"@)
    ||| seq_contains_sub(kind, "object"@)
    ||| seq_contains_sub(field, "object"@)
}

/// The category or role names a function/method/invocation-like construct.
pub open spec fn spec_is_function(kind: Seq<char>, field: Seq<char>) -> bool {
    ||| seq_contains_sub(kind, "function"@)
    ||| seq_contains_sub(field, "function"@)
    ||| seq_contains_sub(kind, "method"@)
    ||| seq_contains_sub(field, "method"@)
    ||| seq_contains_sub(kind, "invocation"@)
    ||| seq_contains_sub(field, "invocation"@)
    ||| seq_contains_sub(kind, "call"@)
    ||| seq_contains_sub(field, "call"@)
}

pub fn is_class(kind: &str, field_name: &str) -> (r: bool)
    ensures
        r == spec_is_class(kind@, field_name@),
{
    contains_sub(kind, "class") || contains_sub(field_name, "class") || contains_sub(
        kind,
        "struct",
    ) || contains_sub(field_name, "struct") || contains_sub(kind, "object") || contains_sub(
        field_name,
        "object",
    )
}

pub fn is_function(kind: &str, field_name: &str) -> (r: bool)
    ensures
        r == spec_is_function(kind@, field_name@),
{
    contains_sub(kind, "function") || contains_sub(field_name, "function") || contains_sub(
        kind,
        "method",
    ) || contains_sub(field_name, "method") || contains_sub(kind, "invocation") || contains_sub(
        field_name,
        "invocation",
    ) || contains_sub(kind, "call") || contains_sub(field_name, "call")
}

/// The classification rule: an identifier-like token is tagged by checking
/// its parent's category and its own role against the class-like and then
/// the function-like keyword sets; if neither matches, the same two checks
/// are repeated one level up, at the grandparent, before falling back to a
/// generic name. Every other token is kept verbatim.
pub open spec fn spec_classify(item: TreeItem) -> TokenKind {
    if seq_contains_sub(item.kind@, "identifier"@) {
        match item.parent_kind {
            Option::None => TokenKind::Name,
            Option::Some(pk) => if spec_is_class(pk@, item.field@) {
                TokenKind::NameClass
            } else if spec_is_function(pk@, item.field@) {
                TokenKind::NameFunction
            } else {
                match item.grandparent_kind {
                    Option::None => TokenKind::Name,
                    Option::Some(gk) => if spec_is_class(gk@, item.field@) {
                        TokenKind::NameClass
                    } else if spec_is_function(gk@, item.field@) {
                        TokenKind::NameFunction
                    } else {
                        TokenKind::Name
                    },
                }
            },
        }
    } else {
        TokenKind::Text
    }
}

/// Copy the bytes of a token text.
pub fn copy_bytes(src: &Vec<u8>) -> (r: Vec<u8>)
    ensures
        r@ == src@,
{
    let mut out: Vec<u8> = Vec::new();
    let mut i: usize = 0;
    while i < src.len()
        invariant
            0 <= i <= src@.len(),
            out@ == src@.take(i as int),
        decreases src@.len() - i,
    {
        out.push(src[i]);
        proof {
            assert(out@ =~= src@.take(i + 1));
        }
        i = i + 1;
    }
    proof {
        assert(src@.take(src@.len() as int) =~= src@);
    }
    out
}

/// The classified token produced for one tree leaf.
pub open spec fn token_matches_item(t: Token, item: TreeItem) -> bool {
    &&& t.kind == spec_classify(item)
    &&& t.text@ == item.text@
    &&& t.start_byte == item.start_byte
    &&& t.end_byte == item.end_byte
}

/// Classify one leaf from its syntactic context.
pub fn assign_context(item: &TreeItem) -> (r: Token)
    ensures
        token_matches_item(r, *item),
{
    let text: Vec<u8> = copy_bytes(&item.text);
    if contains_sub(item.kind.as_str(), "identifier") {
        match &item.parent_kind {
            Option::None => Token::new(text, TokenKind::Name, item.start_byte, item.end_byte),
            Option::Some(parent) => {
                if is_class(parent.as_str(), item.field.as_str()) {
                    Token::new(text, TokenKind::NameClass, item.start_byte, item.end_byte)
                } else if is_function(parent.as_str(), item.field.as_str()) {
                    Token::new(text, TokenKind::NameFunction, item.start_byte, item.end_byte)
                } else {
                    match &item.grandparent_kind {
                        Option::None => Token::new(
                            text,
                            TokenKind::Name,
                            item.start_byte,
                            item.end_byte,
                        ),
                        Option::Some(gparent) => {
                            if is_class(gparent.as_str(), item.field.as_str()) {
                                Token::new(
                                    text,
                                    TokenKind::NameClass,
                                    item.start_byte,
                                    item.end_byte,
                                )
                            } else if is_function(gparent.as_str(), item.field.as_str()) {
                                Token::new(
                                    text,
                                    TokenKind::NameFunction,
                                    item.start_byte,
                                    item.end_byte,
                                )
                            } else {
                                Token::new(text, TokenKind::Name, item.start_byte, item.end_byte)
                            }
                        },
                    }
                }
            },
        }
    } else {
        Token::new(text, TokenKind::Text, item.start_byte, item.end_byte)
    }
}

/// Classify a whole leaf stream, in order.
pub fn tokenize_tree(items: &Vec<TreeItem>) -> (r: Vec<Token>)
    ensures
        r@.len() == items@.len(),
        forall|i: int| 0 <= i < items@.len() ==> token_matches_item(#[trigger] r@[i], items@[i]),
{
    let mut tokens: Vec<Token> = Vec::new();
    let mut i: usize = 0;
    while i < items.len()
        invariant
            0 <= i <= items@.len(),
            tokens@.len() == i,
            forall|p: int| 0 <= p < i ==> token_matches_item(#[trigger] tokens@[p], items@[p]),
        decreases items@.len() - i,
    {
        let t: Token = assign_context(&items[i]);
        tokens.push(t);
        i = i + 1;
    }
    tokens
}

/// LAW (classification reads context, never the name): two leaves with the
/// same category, role, parent and grandparent categories classify alike,
/// whatever their token texts are. This is what makes the fingerprint
/// invariant under consistent identifier renaming.
pub proof fn lemma_classify_ignores_text(a: TreeItem, b: TreeItem)
    requires
        a.kind@ == b.kind@,
        a.field@ == b.field@,
        a.parent_kind is Some <==> b.parent_kind is Some,
        a.parent_kind is Some ==> a.parent_kind->0@ == b.parent_kind->0@,
        a.grandparent_kind is Some <==> b.grandparent_kind is Some,
        a.grandparent_kind is Some ==> a.grandparent_kind->0@ == b.grandparent_kind->0@,
    ensures
        spec_classify(a) == spec_classify(b),
{
}

} // verus!
