//! Rendering orders as a small CSV table.
//!
//! The output is a `Symbol,Action,Amount` header followed by one row
//! per order.  Amounts are rounded to a whole cent (half away from
//! zero) and written with exactly two fraction digits.  A symbol or
//! action field that contains a delimiter, a quote or a line break is
//! quoted in the standard CSV way, with embedded quotes doubled.

use vstd::prelude::*;

use crate::dec::fmt_2dp_spec;
use crate::orders::Order;
use crate::orders::orders_view;

verus! {

/// A character that forces CSV quoting.
pub open spec fn is_special(c: char) -> bool {
    c == ',' || c == '"' || c == '\n' || c == '\r'
}

/// Whether a field must be quoted.
pub open spec fn needs_quoting(s: Seq<char>) -> bool {
    exists|j: int| 0 <= j < s.len() && is_special(#[trigger] s[j])
}

/// `s` with every `"` doubled.
pub open spec fn escape_quotes(s: Seq<char>) -> Seq<char>
    decreases s.len(),
{
    if s.len() == 0 {
        Seq::<char>::empty()
    } else {
        escape_quotes(s.drop_last()) + (if s.last() == '"' {
            seq!['"', '"']
        } else {
            seq![s.last()]
        })
    }
}

/// A field as it appears in the output: quoted and escaped only when
/// needed.
pub open spec fn quote_field_spec(s: Seq<char>) -> Seq<char> {
    if needs_quoting(s) {
        seq!['"'] + escape_quotes(s) + seq!['"']
    } else {
        s
    }
}

/// One output row: fund, action and the amount at two fraction digits.
pub open spec fn render_line_spec(o: (Seq<char>, Seq<char>, int)) -> Seq<char> {
    quote_field_spec(o.0) + seq![','] + quote_field_spec(o.1) + seq![','] + fmt_2dp_spec(o.2)
        + seq!['\n']
}

/// The whole output: header line, then one row per order.
pub open spec fn render_spec(os: Seq<(Seq<char>, Seq<char>, int)>) -> Seq<char>
    decreases os.len(),
{
    if os.len() == 0 {
        "Symbol,Action,Amount\n"@
    } else {
        render_spec(os.drop_last()) + render_line_spec(os.last())
    }
}

/// Whether the character at position `i` forces quoting.
fn special_at(s: &str, i: usize) -> (r: bool)
    requires
        i < s@.len(),
    ensures
        r == is_special(s@[i as int]),
{
    let c = s.get_char(i);
    c == ',' || c == '"' || c == '\n' || c == '\r'
}

/// Appends `field`, quoted and escaped when it needs to be.
fn append_quoted(out: &mut String, field: &str)
    ensures
        final(out)@ == old(out)@ + quote_field_spec(field@),
{
    let n = field.unicode_len();
    let mut special = false;
    let mut i: usize = 0;
    while i < n
        invariant
            i <= n,
            n == field@.len(),
            special == exists|j: int| 0 <= j < i as int && is_special(#[trigger] field@[j]),
        decreases n - i,
    {
        if special_at(field, i) {
            special = true;
        }
        i = i + 1;
    }
    if !special {
        out.append(field);
        return ;
    }
    out.append("\"");
    let ghost base = out@;
    let mut k: usize = 0;
    proof {
        assert(escape_quotes(field@.take(0)) =~= Seq::<char>::empty());
        assert(base + escape_quotes(field@.take(0)) =~= base);
    }
    while k < n
        invariant
            k <= n,
            n == field@.len(),
            out@ == base + escape_quotes(field@.take(k as int)),
        decreases n - k,
    {
        proof {
            assert(field@.take(k as int + 1).drop_last() =~= field@.take(k as int));
            assert(field@.take(k as int + 1).last() == field@[k as int]);
        }
        let c = field.get_char(k);
        if c == '"' {
            out.append("\"\"");
            proof {
                reveal_strlit("\"\"");
                assert("\"\""@ =~= seq!['"', '"']);
                assert(out@ =~= base + escape_quotes(field@.take(k as int + 1)));
            }
        } else {
            let piece = field.substring_char(k, k + 1);
            out.append(piece);
            proof {
                assert(piece@ =~= seq![field@[k as int]]);
                assert(out@ =~= base + escape_quotes(field@.take(k as int + 1)));
            }
        }
        k = k + 1;
    }
    out.append("\"");
    proof {
        reveal_strlit("\"");
        assert("\""@ =~= seq!['"']);
        assert(field@.take(n as int) =~= field@);
        assert(out@ =~= old(out)@ + (seq!['"'] + escape_quotes(field@) + seq!['"']));
    }
}

/// Renders the orders as the final CSV text, exactly [`render_spec`].
#[verifier::loop_isolation(false)]
pub fn render_orders(orders: &Vec<Order>) -> (r: String)
    requires
        forall|i: int|
            0 <= i < orders@.len() ==> (#[trigger] orders@[i]).amount.units != i128::MIN,
    ensures
        r@ == render_spec(orders_view(orders@)),
{
    let ghost ov = orders_view(orders@);
    let mut out = "Symbol,Action,Amount\n".to_owned();
    let mut i: usize = 0;
    proof {
        assert(ov.take(0) =~= Seq::<(Seq<char>, Seq<char>, int)>::empty());
    }
    while i < orders.len()
        invariant
            i <= orders.len(),
            out@ == render_spec(ov.take(i as int)),
        decreases orders.len() - i,
    {
        proof {
            assert(ov.take(i as int + 1).drop_last() =~= ov.take(i as int));
            assert(ov.take(i as int + 1).last() == ov[i as int]);
            assert(ov[i as int] == orders@[i as int]@);
        }
        let ghost before = out@;
        append_quoted(&mut out, orders[i].fund.as_str());
        out.append(",");
        append_quoted(&mut out, orders[i].action.as_str());
        out.append(",");
        let amt = orders[i].amount.fmt_2dp();
        out.append(amt.as_str());
        out.append("\n");
        proof {
            reveal_strlit(",");
            reveal_strlit("\n");
            assert(","@ =~= seq![',']);
            assert("\n"@ =~= seq!['\n']);
            assert(out@ =~= before + render_line_spec(ov[i as int]));
        }
        i = i + 1;
    }
    proof {
        assert(ov.take(orders@.len() as int) =~= ov);
    }
    out
}

} // verus!
