//! List mode: render the currency catalog as a two-column table.
//!
//! The table keeps the order in which the decoder yielded the entries,
//! uppercases each code, pads the code column to the longest code, and
//! silently skips entries whose value is not a string.

use vstd::prelude::*;
use vstd::string::*;
use crate::errors::CurError;
use crate::json::Json;
use crate::text::{push_repeat, spec_repeat, spec_upper, to_upper};

verus! {

/// `s` padded on the right with spaces up to width `w`; never truncated.
pub open spec fn spec_pad(s: Seq<char>, w: nat) -> Seq<char> {
    s + spec_repeat(' ', if s.len() >= w { 0nat } else { (w - s.len()) as nat })
}

/// The longest key length, zero on an empty object.
pub open spec fn spec_max_key_len(es: Seq<(String, Json)>) -> nat
    decreases es.len(),
{
    if es.len() == 0 {
        0
    } else {
        let rest = spec_max_key_len(es.drop_last());
        let k = es.last().0@.len();
        if k >= rest { k } else { rest }
    }
}

/// The code-column width: the longest code, or three for an empty
/// catalog.
pub open spec fn spec_width(es: Seq<(String, Json)>) -> nat {
    if es.len() == 0 { 3 } else { spec_max_key_len(es) }
}

/// The data rows, in catalog order: `CODE : Name`, skipping entries
/// whose value is not a string.
pub open spec fn spec_rows(es: Seq<(String, Json)>, w: nat) -> Seq<Seq<char>>
    decreases es.len(),
{
    if es.len() == 0 {
        Seq::empty()
    } else {
        let init = spec_rows(es.drop_last(), w);
        match es.last().1 {
            Json::Str(name) => init.push(spec_pad(spec_upper(es.last().0@), w) + " : "@ + name@),
            _ => init,
        }
    }
}

/// The whole table: a blank line, the title, the column header, the
/// separator, then the rows.
pub open spec fn spec_catalog_lines(es: Seq<(String, Json)>) -> Seq<Seq<char>> {
    let w = spec_width(es);
    seq![
        Seq::<char>::empty(),
        "Available currencies:"@,
        spec_pad("CODE"@, w) + " : NAME"@,
        spec_repeat('-', (w + 33) as nat),
    ] + spec_rows(es, w)
}

pub open spec fn lines_views(v: Seq<String>) -> Seq<Seq<char>> {
    v.map_values(|l: String| l@)
}

/// `s` followed by spaces up to width `w`.
fn padded(s: &str, w: usize) -> (r: String)
    ensures
        r@ == spec_pad(s@, w as nat),
{
    let mut out = String::from_str(s);
    let l = s.unicode_len();
    if l < w {
        push_repeat(&mut out, ' ', w - l);
    } else {
        proof {
            assert(out@ =~= spec_pad(s@, w as nat));
        }
    }
    out
}

/// Renders the catalog document into the table's lines, top to bottom.
/// Any document that is not an object is rejected as unexpected data.
pub fn render_catalog(doc: &Json) -> (r: Result<Vec<String>, CurError>)
    ensures
        doc matches Json::Obj(es) ==> (r matches Ok(lines) && lines_views(lines@)
            == spec_catalog_lines(es@)),
        !(doc matches Json::Obj(es)) ==> r == Err::<Vec<String>, CurError>(
            CurError::UnexpectedFormat,
        ),
{
    let es = match doc {
        Json::Obj(es) => es,
        _ => {
            return Err(CurError::UnexpectedFormat);
        },
    };
    let n = es.len();
    // The code-column width.
    let mut w: usize = 0;
    let mut i: usize = 0;
    proof {
        assert(es@.take(0int) =~= Seq::<(String, Json)>::empty());
    }
    while i < n
        invariant
            i <= n,
            n == es@.len(),
            w as nat == spec_max_key_len(es@.take(i as int)),
        decreases n - i,
    {
        let k = es[i].0.unicode_len();
        if k > w {
            w = k;
        }
        proof {
            assert(es@.take(i as int + 1).drop_last() =~= es@.take(i as int));
            assert(es@.take(i as int + 1).last() == es@[i as int]);
        }
        i = i + 1;
    }
    proof {
        assert(es@.take(n as int) =~= es@);
    }
    let w: usize = if n == 0 { 3 } else { w };
    // The fixed lines.
    let mut lines: Vec<String> = Vec::new();
    lines.push(String::new());
    lines.push(String::from_str("Available currencies:"));
    let mut header = padded("CODE", w);
    header.append(" : NAME");
    lines.push(header);
    let mut sep = String::new();
    push_repeat(&mut sep, '-', w);
    push_repeat(&mut sep, '-', 33);
    proof {
        assert(sep@ =~= spec_repeat('-', (w + 33) as nat));
    }
    lines.push(sep);
    proof {
        assert(lines_views(lines@) =~= seq![
            Seq::<char>::empty(),
            "Available currencies:"@,
            spec_pad("CODE"@, w as nat) + " : NAME"@,
            spec_repeat('-', (w as nat + 33) as nat),
        ]);
        assert(spec_rows(es@.take(0int), w as nat) =~= Seq::<Seq<char>>::empty());
    }
    // The data rows.
    let ghost head = lines_views(lines@);
    let mut i2: usize = 0;
    while i2 < n
        invariant
            i2 <= n,
            n == es@.len(),
            head == lines_views(lines@).take(4),
            head.len() == 4,
            lines_views(lines@) == head + spec_rows(es@.take(i2 as int), w as nat),
        decreases n - i2,
    {
        let e = &es[i2];
        let ghost prev = lines_views(lines@);
        proof {
            assert(es@.take(i2 as int + 1).drop_last() =~= es@.take(i2 as int));
            assert(es@.take(i2 as int + 1).last() == es@[i2 as int]);
        }
        match &e.1 {
            Json::Str(name) => {
                let cu = to_upper(e.0.as_str());
                let mut row = padded(cu.as_str(), w);
                row.append(" : ");
                row.append(name.as_str());
                proof {
                    assert(row@ =~= spec_pad(spec_upper(e.0@), w as nat) + " : "@ + name@);
                }
                lines.push(row);
                proof {
                    assert(lines_views(lines@) =~= prev.push(row@));
                    assert(spec_rows(es@.take(i2 as int + 1), w as nat) == spec_rows(
                        es@.take(i2 as int),
                        w as nat,
                    ).push(spec_pad(spec_upper(es@[i2 as int].0@), w as nat) + " : "@
                        + es@[i2 as int].1->Str_0@));
                }
            },
            _ => {
                proof {
                    assert(lines_views(lines@) == prev);
                    assert(spec_rows(es@.take(i2 as int + 1), w as nat) == spec_rows(
                        es@.take(i2 as int),
                        w as nat,
                    ));
                }
            },
        }
        proof {
            assert(lines_views(lines@) =~= head + spec_rows(es@.take(i2 as int + 1), w as nat));
            assert(lines_views(lines@).take(4) =~= head);
        }
        i2 = i2 + 1;
    }
    proof {
        assert(es@.take(n as int) =~= es@);
        assert(lines_views(lines@) =~= spec_catalog_lines(es@));
    }
    Ok(lines)
}

} // verus!
