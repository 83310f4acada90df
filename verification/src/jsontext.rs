use vstd::prelude::*;

use crate::json::{digit_char, spec_number_text, JsonValue};
use crate::jsonview::{json_entries_view, json_items_view, lemma_entries_view, lemma_items_view, JsonView};

verus! {

/// The lower-case hexadecimal digit of `d`.
pub open spec fn hex_digit(d: nat) -> char {
    if d < 10 {
        digit_char(d)
    } else if d == 10 {
        'a'
    } else if d == 11 {
        'b'
    } else if d == 12 {
        'c'
    } else if d == 13 {
        'd'
    } else if d == 14 {
        'e'
    } else {
        'f'
    }
}

/// A character as it stands inside a JSON string: a quote and a backslash
/// escaped with a backslash, a control character as `\u00XX`, any other as
/// itself.
pub open spec fn escaped_char(c: char) -> Seq<char> {
    if c == '"' {
        seq!['\\', '"']
    } else if c == '\\' {
        seq!['\\', '\\']
    } else if (c as u32) < 0x20 {
        seq!['\\', 'u', '0', '0', hex_digit((c as u32 / 16) as nat), hex_digit((c as u32 % 16) as nat)]
    } else {
        seq![c]
    }
}

/// The characters of `s` as they stand inside a JSON string.
pub open spec fn escaped(s: Seq<char>) -> Seq<char>
    decreases s.len(),
{
    if s.len() == 0 {
        Seq::empty()
    } else {
        escaped(s.drop_last()) + escaped_char(s.last())
    }
}

/// `s` as a JSON string.
pub open spec fn string_text(s: Seq<char>) -> Seq<char> {
    seq!['"'] + escaped(s) + seq!['"']
}

/// The JSON text of a value, compact: no whitespace, members in order.
pub open spec fn json_text(v: JsonView) -> Seq<char>
    decreases v, 1int,
{
    match v {
        JsonView::Null => seq!['n', 'u', 'l', 'l'],
        JsonView::Bool(b) => if b {
            seq!['t', 'r', 'u', 'e']
        } else {
            seq!['f', 'a', 'l', 's', 'e']
        },
        JsonView::Number(n) => spec_number_text(n),
        JsonView::String(s) => string_text(s),
        JsonView::Array(xs) => seq!['['] + items_text(xs) + seq![']'],
        JsonView::Object(es) => seq!['{'] + entries_text(es) + seq!['}'],
    }
}

/// The JSON texts of items, separated by commas.
pub open spec fn items_text(xs: Seq<JsonView>) -> Seq<char>
    decreases xs, 0int,
{
    if xs.len() == 0 {
        Seq::empty()
    } else if xs.len() == 1 {
        json_text(xs[0])
    } else {
        items_text(xs.drop_last()) + seq![','] + json_text(xs.last())
    }
}

/// The JSON texts of members, each key and value separated by a colon,
/// the members by commas.
pub open spec fn entries_text(es: Seq<(Seq<char>, JsonView)>) -> Seq<char>
    decreases es, 0int,
{
    if es.len() == 0 {
        Seq::empty()
    } else if es.len() == 1 {
        string_text(es[0].0) + seq![':'] + json_text(es[0].1)
    } else {
        entries_text(es.drop_last()) + seq![','] + string_text(es.last().0) + seq![':'] + json_text(es.last().1)
    }
}


fn hex_str(d: u32) -> (s: &'static str)
    requires
        d < 16,
    ensures
        s@ == seq![hex_digit(d as nat)],
{
    proof {
        reveal_strlit("0");
        reveal_strlit("1");
        reveal_strlit("2");
        reveal_strlit("3");
        reveal_strlit("4");
        reveal_strlit("5");
        reveal_strlit("6");
        reveal_strlit("7");
        reveal_strlit("8");
        reveal_strlit("9");
        reveal_strlit("a");
        reveal_strlit("b");
        reveal_strlit("c");
        reveal_strlit("d");
        reveal_strlit("e");
        reveal_strlit("f");
    }
    if d == 0 {
        "0"
    } else if d == 1 {
        "1"
    } else if d == 2 {
        "2"
    } else if d == 3 {
        "3"
    } else if d == 4 {
        "4"
    } else if d == 5 {
        "5"
    } else if d == 6 {
        "6"
    } else if d == 7 {
        "7"
    } else if d == 8 {
        "8"
    } else if d == 9 {
        "9"
    } else if d == 10 {
        "a"
    } else if d == 11 {
        "b"
    } else if d == 12 {
        "c"
    } else if d == 13 {
        "d"
    } else if d == 14 {
        "e"
    } else {
        "f"
    }
}

/// Appends the characters of `s` as they stand inside a JSON string.
pub fn push_escaped(out: &mut String, s: &str)
    ensures
        final(out)@ == old(out)@ + escaped(s@),
{
    let n = s.unicode_len();
    let mut i: usize = 0;
    proof {
        assert(s@.take(0) =~= Seq::<char>::empty());
        assert(out@ =~= old(out)@ + escaped(s@.take(0)));
    }
    while i < n
        invariant
            n == s@.len(),
            0 <= i <= n,
            out@ == old(out)@ + escaped(s@.take(i as int)),
        decreases n - i,
    {
        let c = s.get_char(i);
        let ghost before = out@;
        proof {
            assert(s@.take(i + 1).drop_last() =~= s@.take(i as int));
            assert(s@.take(i + 1).last() == c);
        }
        if c == '"' {
            proof {
                reveal_strlit("\\\"");
            }
            out.append("\\\"");
        } else if c == '\\' {
            proof {
                reveal_strlit("\\\\");
            }
            out.append("\\\\");
        } else if (c as u32) < 0x20 {
            proof {
                reveal_strlit("\\u00");
            }
            out.append("\\u00");
            out.append(hex_str(c as u32 / 16));
            out.append(hex_str(c as u32 % 16));
        } else {
            out.append(s.substring_char(i, i + 1));
            assert(s@.subrange(i as int, i + 1) =~= seq![c]);
        }
        assert(out@ =~= before + escaped_char(c));
        i += 1;
    }
    assert(s@.take(n as int) =~= s@);
}

/// Appends `s` as a JSON string.
pub fn push_string_text(out: &mut String, s: &str)
    ensures
        final(out)@ == old(out)@ + string_text(s@),
{
    proof {
        reveal_strlit("\"");
    }
    out.append("\"");
    push_escaped(out, s);
    out.append("\"");
    assert(final(out)@ =~= old(out)@ + string_text(s@));
}

/// Appends the compact JSON text of `v`.
pub fn push_json_text(out: &mut String, v: &JsonValue)
    ensures
        final(out)@ == old(out)@ + json_text(v@),
    decreases v,
{
    match v {
        JsonValue::Null => {
            proof {
                reveal_strlit("null");
            }
            out.append("null");
        },
        JsonValue::Bool(b) => {
            proof {
                reveal_strlit("true");
                reveal_strlit("false");
            }
            if *b {
                out.append("true");
            } else {
                out.append("false");
            }
        },
        JsonValue::Number(n) => {
            let t = n.to_text();
            out.append(t.as_str());
        },
        JsonValue::String(s) => {
            push_string_text(out, s.as_str());
        },
        JsonValue::Array(xs) => {
            let ghost ys = json_items_view(xs@);
            proof {
                lemma_items_view(xs@);
                reveal_strlit("[");
                reveal_strlit("]");
                reveal_strlit(",");
                assert(ys.take(0) =~= Seq::<JsonView>::empty());
            }
            out.append("[");
            let mut i: usize = 0;
            while i < xs.len()
                invariant
                    0 <= i <= xs@.len(),
                    *v == JsonValue::Array(*xs),
                    ys == json_items_view(xs@),
                    ys.len() == xs@.len(),
                    forall|k: int| 0 <= k < xs@.len() ==> #[trigger] ys[k] == xs@[k]@,
                    out@ == old(out)@ + seq!['['] + items_text(ys.take(i as int)),
                decreases xs@.len() - i,
            {
                let ghost before = out@;
                proof {
                    reveal_strlit(",");
                }
                if i > 0 {
                    out.append(",");
                }
                let ghost sep = out@;
                assert(decreases_to!(*v => (*v)->Array_0@[i as int]));
                push_json_text(out, &xs[i]);
                proof {
                    assert(out@ == sep + json_text(ys[i as int]));
                    let t = ys.take(i + 1);
                    assert(t.drop_last() =~= ys.take(i as int));
                    assert(t.last() == ys[i as int]);
                    if i == 0 {
                        assert(sep == before);
                        assert(t.len() == 1);
                        assert(t[0] == ys[0]);
                        assert(items_text(ys.take(0)) =~= Seq::<char>::empty());
                        assert(items_text(t) == json_text(ys[0]));
                        assert(out@ =~= old(out)@ + seq!['['] + items_text(t));
                    } else {
                        assert(items_text(t) == items_text(ys.take(i as int)) + seq![','] + json_text(ys[i as int]));
                        assert(out@ =~= old(out)@ + seq!['['] + items_text(t));
                    }
                }
                i += 1;
            }
            out.append("]");
            proof {
                assert(ys.take(xs@.len() as int) =~= ys);
                assert(out@ =~= old(out)@ + json_text(v@));
            }
        },
        JsonValue::Object(es) => {
            let ghost ys = json_entries_view(es@);
            proof {
                lemma_entries_view(es@);
                reveal_strlit("{");
                reveal_strlit("}");
                reveal_strlit(",");
                reveal_strlit(":");
                assert(ys.take(0) =~= Seq::<(Seq<char>, JsonView)>::empty());
            }
            out.append("{");
            let mut i: usize = 0;
            while i < es.len()
                invariant
                    0 <= i <= es@.len(),
                    *v == JsonValue::Object(*es),
                    ys == json_entries_view(es@),
                    ys.len() == es@.len(),
                    forall|k: int| 0 <= k < es@.len() ==> #[trigger] ys[k] == (es@[k].0@, es@[k].1@),
                    out@ == old(out)@ + seq!['{'] + entries_text(ys.take(i as int)),
                decreases es@.len() - i,
            {
                let ghost before = out@;
                proof {
                    reveal_strlit(",");
                    reveal_strlit(":");
                }
                if i > 0 {
                    out.append(",");
                }
                let ghost sep = out@;
                push_string_text(out, es[i].0.as_str());
                out.append(":");
                let ghost keyed = out@;
                assert(decreases_to!(*v => (*v)->Object_0@[i as int].1));
                push_json_text(out, &es[i].1);
                proof {
                    let t = ys.take(i + 1);
                    let e = ys[i as int];
                    assert(e == (es@[i as int].0@, es@[i as int].1@));
                    assert(keyed == sep + string_text(e.0) + seq![':']);
                    assert(out@ == keyed + json_text(e.1));
                    assert(t.drop_last() =~= ys.take(i as int));
                    assert(t.last() == e);
                    if i == 0 {
                        assert(t.len() == 1);
                        assert(t[0] == e);
                        assert(entries_text(ys.take(0)) =~= Seq::<char>::empty());
                        assert(sep == before);
                        assert(entries_text(t) == string_text(e.0) + seq![':'] + json_text(e.1));
                        assert(out@ =~= old(out)@ + seq!['{'] + entries_text(t));
                    } else {
                        assert(sep == before + seq![',']);
                        assert(entries_text(t) == entries_text(ys.take(i as int)) + seq![','] + string_text(e.0)
                            + seq![':'] + json_text(e.1));
                        assert(out@ =~= old(out)@ + seq!['{'] + entries_text(t));
                    }
                }
                i += 1;
            }
            out.append("}");
            proof {
                assert(ys.take(es@.len() as int) =~= ys);
                assert(out@ =~= old(out)@ + json_text(v@));
            }
        },
    }
}

/// The compact JSON text of `v`.
pub fn to_json_text(v: &JsonValue) -> (s: String)
    ensures
        s@ == json_text(v@),
{
    let mut s = String::new();
    push_json_text(&mut s, v);
    assert(s@ =~= json_text(v@));
    s
}

} // verus!
