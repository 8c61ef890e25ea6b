//! Escaping text for SVG.
use vstd::prelude::*;

use crate::strings::{push_char, to_chars};
use vstd::string::StringExecFns;

verus! {

/// Whether `c` is one of the five characters that XML reserves.
pub open spec fn is_xml_special(c: char) -> bool {
    c == '&' || c == '<' || c == '>' || c == '"' || c == '\''
}

/// The escaped form of one character: its XML entity, or the character.
pub open spec fn escape_char(c: char) -> Seq<char> {
    if c == '&' {
        seq!['&', 'a', 'm', 'p', ';']
    } else if c == '<' {
        seq!['&', 'l', 't', ';']
    } else if c == '>' {
        seq!['&', 'g', 't', ';']
    } else if c == '"' {
        seq!['&', 'q', 'u', 'o', 't', ';']
    } else if c == '\'' {
        seq!['&', 'a', 'p', 'o', 's', ';']
    } else {
        seq![c]
    }
}

/// `s` with every reserved character replaced by its entity.
pub open spec fn escape(s: Seq<char>) -> Seq<char>
    decreases s.len(),
{
    if s.len() == 0 {
        Seq::empty()
    } else {
        escape_char(s[0]) + escape(s.drop_first())
    }
}

/// Escaping a concatenation is concatenating the escapes.
pub proof fn lemma_escape_concat(a: Seq<char>, b: Seq<char>)
    ensures
        escape(a + b) == escape(a) + escape(b),
    decreases a.len(),
{
    if a.len() == 0 {
        assert(a + b =~= b);
        assert(escape(a) + escape(b) =~= escape(b));
    } else {
        assert((a + b).drop_first() =~= a.drop_first() + b);
        lemma_escape_concat(a.drop_first(), b);
        assert(escape(a + b) =~= escape(a) + escape(b));
    }
}

proof fn lemma_escape_snoc(s: Seq<char>, c: char)
    ensures
        escape(s.push(c)) == escape(s) + escape_char(c),
{
    lemma_escape_concat(s, seq![c]);
    assert(s + seq![c] =~= s.push(c));
    assert(seq![c].drop_first() =~= Seq::<char>::empty());
    assert(escape(Seq::<char>::empty()) == Seq::<char>::empty());
    assert(seq![c][0] == c);
    assert(escape(seq![c]) =~= escape_char(c) + Seq::<char>::empty());
    assert(escape_char(c) + Seq::<char>::empty() =~= escape_char(c));
}

proof fn lemma_escape_plain(s: Seq<char>)
    requires
        forall|i: int| 0 <= i < s.len() ==> !is_xml_special(#[trigger] s[i]),
    ensures
        escape(s) == s,
    decreases s.len(),
{
    if s.len() > 0 {
        assert forall|i: int| 0 <= i < s.drop_first().len() implies !is_xml_special(
            #[trigger] s.drop_first()[i],
        ) by {
            assert(s.drop_first()[i] == s[i + 1]);
        }
        lemma_escape_plain(s.drop_first());
        assert(!is_xml_special(s[0]));
        assert(escape(s) =~= s);
    }
}

/// Escapes the XML special characters of `s` for safe embedding in SVG.
pub fn esc(s: &str) -> (r: String)
    ensures
        r@ == escape(s@),
{
    let cs = to_chars(s);
    let n = cs.len();
    let mut any = false;
    let mut i: usize = 0;
    while i < n
        invariant
            i <= n == cs@.len(),
            cs@ == s@,
            !any ==> forall|k: int| 0 <= k < i ==> !is_xml_special(#[trigger] cs@[k]),
        decreases n - i,
    {
        let c = cs[i];
        if c == '&' || c == '<' || c == '>' || c == '"' || c == '\'' {
            any = true;
        }
        i = i + 1;
    }
    if !any {
        proof { lemma_escape_plain(s@); }
        return s.to_owned();
    }
    let mut escaped = String::new();
    let mut j: usize = 0;
    assert(cs@.take(0) =~= Seq::<char>::empty());
    while j < n
        invariant
            j <= n == cs@.len(),
            cs@ == s@,
            escaped@ == escape(cs@.take(j as int)),
        decreases n - j,
    {
        let c = cs[j];
        proof {
            assert(cs@.take(j + 1) =~= cs@.take(j as int).push(c));
            lemma_escape_snoc(cs@.take(j as int), c);
        }
        if c == '&' {
            proof { reveal_strlit("&amp;"); }
            escaped.append("&amp;");
        } else if c == '<' {
            proof { reveal_strlit("&lt;"); }
            escaped.append("&lt;");
        } else if c == '>' {
            proof { reveal_strlit("&gt;"); }
            escaped.append("&gt;");
        } else if c == '"' {
            proof { reveal_strlit("&quot;"); }
            escaped.append("&quot;");
        } else if c == '\'' {
            proof { reveal_strlit("&apos;"); }
            escaped.append("&apos;");
        } else {
            push_char(&mut escaped, c);
        }
        j = j + 1;
    }
    assert(cs@.take(n as int) =~= cs@);
    escaped
}

// ───────────────────────────── laws ─────────────────────────────

/// Reading the five XML entities back: the inverse that an XML parser applies.
pub open spec fn unescape(s: Seq<char>) -> Seq<char>
    decreases s.len(),
{
    if s.len() == 0 {
        Seq::empty()
    } else if s.len() >= 5 && s.take(5) == seq!['&', 'a', 'm', 'p', ';'] {
        seq!['&'] + unescape(s.skip(5))
    } else if s.len() >= 4 && s.take(4) == seq!['&', 'l', 't', ';'] {
        seq!['<'] + unescape(s.skip(4))
    } else if s.len() >= 4 && s.take(4) == seq!['&', 'g', 't', ';'] {
        seq!['>'] + unescape(s.skip(4))
    } else if s.len() >= 6 && s.take(6) == seq!['&', 'q', 'u', 'o', 't', ';'] {
        seq!['"'] + unescape(s.skip(6))
    } else if s.len() >= 6 && s.take(6) == seq!['&', 'a', 'p', 'o', 's', ';'] {
        seq!['\''] + unescape(s.skip(6))
    } else {
        seq![s[0]] + unescape(s.drop_first())
    }
}

/// Escaping loses nothing: reading the entities back gives the text that
/// was escaped.
pub proof fn law_unescape_escape(s: Seq<char>)
    ensures
        unescape(escape(s)) == s,
    decreases s.len(),
{
    if s.len() > 0 {
        let c = s[0];
        let rest = escape(s.drop_first());
        law_unescape_escape(s.drop_first());
        let e = escape_char(c);
        let whole = e + rest;
        assert(escape(s) == whole);
        assert(whole.take(e.len() as int) =~= e);
        assert(whole.skip(e.len() as int) =~= rest);
        if c == '&' {
            assert(whole.take(5) =~= seq!['&', 'a', 'm', 'p', ';']);
        } else if c == '<' {
            assert(whole.take(4) =~= seq!['&', 'l', 't', ';']);
            if whole.len() >= 5 {
                assert(whole.take(5)[1] == 'l');
            }
        } else if c == '>' {
            if whole.len() >= 5 {
                assert(whole.take(5)[1] == 'g');
            }
            assert(whole.take(4)[1] == 'g');
        } else if c == '"' {
            assert(whole.take(6) =~= seq!['&', 'q', 'u', 'o', 't', ';']);
            assert(whole.take(5)[1] == 'q');
            assert(whole.take(4)[1] == 'q');
        } else if c == '\'' {
            assert(whole.take(6) =~= seq!['&', 'a', 'p', 'o', 's', ';']);
            assert(whole.take(5)[3] == 'o');
            assert(whole.take(4)[1] == 'a');
            assert(whole.take(6)[1] == 'a');
        } else {
            assert(whole[0] == c);
            if whole.len() >= 4 {
                assert(whole.take(4)[0] == c);
            }
            if whole.len() >= 5 {
                assert(whole.take(5)[0] == c);
            }
            if whole.len() >= 6 {
                assert(whole.take(6)[0] == c);
            }
            assert(whole.drop_first() =~= rest);
        }
        assert(unescape(escape(s)) =~= s);
    }
}

/// The escaped text holds no `<`, `>`, `"` or `'`: no tag and no attribute
/// quote can come out of it.
pub proof fn law_escape_has_no_markup(s: Seq<char>)
    ensures
        forall|i: int|
            0 <= i < escape(s).len() ==> {
                let c = #[trigger] escape(s)[i];
                c != '<' && c != '>' && c != '"' && c != '\''
            },
    decreases s.len(),
{
    if s.len() > 0 {
        law_escape_has_no_markup(s.drop_first());
        let e = escape_char(s[0]);
        let rest = escape(s.drop_first());
        assert forall|i: int| 0 <= i < escape(s).len() implies {
            let c = #[trigger] escape(s)[i];
            c != '<' && c != '>' && c != '"' && c != '\''
        } by {
            if i < e.len() {
                assert(escape(s)[i] == e[i]);
            } else {
                assert(escape(s)[i] == rest[i - e.len()]);
            }
        }
    }
}

} // verus!
