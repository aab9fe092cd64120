use vstd::prelude::*;

use crate::collect::views_of;
use crate::guid::GUID;

verus! {

/// The label `displayName: `, as bytes.
pub open spec fn display_name_label() -> Seq<u8> {
    seq![100u8, 105u8, 115u8, 112u8, 108u8, 97u8, 121u8, 78u8, 97u8, 109u8, 101u8, 58u8, 32u8]
}

/// The label `url: `, as bytes.
pub open spec fn url_label() -> Seq<u8> {
    seq![117u8, 114u8, 108u8, 58u8, 32u8]
}

/// The section header `guids:` with its line feed, as bytes.
pub open spec fn guids_header() -> Seq<u8> {
    seq![103u8, 117u8, 105u8, 100u8, 115u8, 58u8, 10u8]
}

/// The identifier section: each identifier on a line of its own, in order.
pub open spec fn spec_guid_lines(gs: Seq<Seq<u8>>) -> Seq<u8>
    decreases gs.len(),
{
    if gs.len() == 0 {
        Seq::<u8>::empty()
    } else {
        gs[0] + seq![10u8] + spec_guid_lines(gs.drop_first())
    }
}

/// The entire manifest text: the display name line, the url line only when a
/// URL was supplied, the `guids:` header, then one line per identifier.
pub open spec fn spec_manifest(name: Seq<u8>, url: Option<Seq<u8>>, gs: Seq<Seq<u8>>) -> Seq<u8> {
    display_name_label() + name + seq![10u8] + (match url {
        Some(u) => url_label() + u + seq![10u8],
        None => Seq::<u8>::empty(),
    }) + guids_header() + spec_guid_lines(gs)
}

/// Appending one identifier extends the section with one line.
pub proof fn lemma_guid_lines_push(gs: Seq<Seq<u8>>, g: Seq<u8>)
    ensures
        spec_guid_lines(gs.push(g)) == spec_guid_lines(gs) + g + seq![10u8],
    decreases gs.len(),
{
    if gs.len() == 0 {
        assert(gs.push(g)[0] == g);
        assert(gs.push(g).drop_first() =~= Seq::<Seq<u8>>::empty());
        assert(spec_guid_lines(Seq::<Seq<u8>>::empty()) == Seq::<u8>::empty());
        assert(spec_guid_lines(gs.push(g)) =~= spec_guid_lines(gs) + g + seq![10u8]);
    } else {
        lemma_guid_lines_push(gs.drop_first(), g);
        assert(gs.push(g).drop_first() =~= gs.drop_first().push(g));
        assert(gs.push(g)[0] == gs[0]);
        assert(spec_guid_lines(gs.push(g)) =~= spec_guid_lines(gs) + g + seq![10u8]);
    }
}

/// Appends all of `s` to `out`.
fn append_bytes(out: &mut Vec<u8>, s: &[u8])
    ensures
        final(out)@ == old(out)@ + s@,
{
    let mut i: usize = 0;
    proof {
        assert(out@ + s@.subrange(0, 0) =~= out@);
    }
    while i < s.len()
        invariant
            0 <= i <= s@.len(),
            out@ == old(out)@ + s@.subrange(0, i as int),
        decreases s@.len() - i,
    {
        out.push(s[i]);
        i += 1;
        proof {
            assert(old(out)@ + s@.subrange(0, i - 1).push(s@[i - 1]) =~= old(out)@ + s@.subrange(
                0,
                i as int,
            ));
        }
    }
    proof {
        assert(s@.subrange(0, s@.len() as int) =~= s@);
    }
}

/// Renders the manifest for a display name, an optional URL, and the final
/// identifier sequence, exactly as it is to be written out.
pub fn render_manifest(display_name: &[u8], url: Option<&[u8]>, guids: &Vec<GUID>) -> (r: Vec<u8>)
    ensures
        r@ == spec_manifest(
            display_name@,
            match url {
                Some(u) => Some(u@),
                None => None,
            },
            views_of(guids@),
        ),
{
    let ghost uv: Option<Seq<u8>> = match url {
        Some(u) => Some(u@),
        None => None,
    };
    let mut out: Vec<u8> = Vec::new();
    out.push(100);
    out.push(105);
    out.push(115);
    out.push(112);
    out.push(108);
    out.push(97);
    out.push(121);
    out.push(78);
    out.push(97);
    out.push(109);
    out.push(101);
    out.push(58);
    out.push(32);
    proof {
        assert(out@ =~= display_name_label());
    }
    append_bytes(&mut out, display_name);
    out.push(10);
    let ghost head = display_name_label() + display_name@ + seq![10u8];
    proof {
        assert(out@ =~= head);
    }
    if let Some(u) = url {
        out.push(117);
        out.push(114);
        out.push(108);
        out.push(58);
        out.push(32);
        append_bytes(&mut out, u);
        out.push(10);
        proof {
            assert(out@ =~= head + (url_label() + u@ + seq![10u8]));
        }
    }
    let ghost head2 = head + (match uv {
        Some(u) => url_label() + u + seq![10u8],
        None => Seq::<u8>::empty(),
    });
    proof {
        assert(out@ =~= head2);
    }
    out.push(103);
    out.push(117);
    out.push(105);
    out.push(100);
    out.push(115);
    out.push(58);
    out.push(10);
    let ghost head3 = head2 + guids_header();
    proof {
        assert(out@ =~= head3);
    }
    let ghost gs = views_of(guids@);
    let n = guids.len();
    let mut i: usize = 0;
    proof {
        assert(gs.take(0) =~= Seq::<Seq<u8>>::empty());
        assert(out@ =~= head3 + spec_guid_lines(gs.take(0)));
    }
    while i < n
        invariant
            0 <= i <= n,
            n == guids@.len(),
            gs == views_of(guids@),
            gs.len() == n,
            out@ == head3 + spec_guid_lines(gs.take(i as int)),
        decreases n - i,
    {
        append_bytes(&mut out, guids[i].bytes().as_slice());
        out.push(10);
        proof {
            lemma_guid_lines_push(gs.take(i as int), gs[i as int]);
            assert(gs.take(i as int).push(gs[i as int]) =~= gs.take(i + 1));
            assert(out@ =~= head3 + spec_guid_lines(gs.take(i + 1)));
        }
        i += 1;
    }
    proof {
        assert(gs.take(n as int) =~= gs);
        assert(head3 + spec_guid_lines(gs) =~= spec_manifest(display_name@, uv, gs));
    }
    out
}

} // verus!
