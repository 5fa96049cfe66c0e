//! The interface normalizer: rewrites a declaration into its canonical,
//! identifier-erased form. Attributes are stripped, visibility is reset to
//! its most restrictive form, the declared name and every parameter binding
//! name become the fixed placeholder `_`, and (when requested) a `&self`
//! receiver is injected. Parameter types, order, mutability qualifiers and
//! the return type are untouched.

use vstd::prelude::*;

use crate::sig::{
    joined, param_text, recv_text, sep_text, sig_items, sig_text, FnDecl, FnDeclV, FnSig, FnSigV,
    Param, ParamV, Vis,
};
use crate::sig::lemma_joined_push;
use crate::store::decoded_interface;
use vstd::string::StringExecFns;

verus! {

/// The placeholder name every identifier is erased to.
pub open spec fn placeholder() -> Seq<char> {
    seq!['_']
}

/// Normalization of one parameter: the binding name is erased.
pub open spec fn norm_param(p: ParamV) -> ParamV {
    ParamV { mutable: p.mutable, name: placeholder(), ty: p.ty }
}

/// Normalization of a signature: parameter names erased; a receiver is
/// injected when `inject_receiver` holds (command implementations are free
/// functions, the interface declares its own receiver).
pub open spec fn norm_sig(s: FnSigV, inject_receiver: bool) -> FnSigV {
    FnSigV {
        receiver: s.receiver || inject_receiver,
        params: s.params.map_values(|p: ParamV| norm_param(p)),
        ret: s.ret,
    }
}

/// Normalization of a whole declaration.
pub open spec fn norm_decl(d: FnDeclV, inject_receiver: bool) -> FnDeclV {
    FnDeclV {
        attrs: Seq::<Seq<char>>::empty(),
        vis: Vis::Inherited,
        name: placeholder(),
        sig: norm_sig(d.sig, inject_receiver),
        body: d.body,
    }
}

/// The canonical signature text of a declaration: the rendering of its
/// normalized signature under the placeholder name. Two declarations have
/// equal shape exactly when these texts are byte-identical.
pub open spec fn canonical_text_of(d: FnDeclV, inject_receiver: bool) -> Seq<char> {
    sig_text(placeholder(), norm_sig(d.sig, inject_receiver))
}

/// Normalizing an already normalized declaration changes nothing, so the
/// canonical text of a declaration is a fixed point of normalization.
pub proof fn lemma_normalize_idempotent(d: FnDeclV, inject_receiver: bool)
    ensures
        norm_decl(norm_decl(d, inject_receiver), inject_receiver) == norm_decl(d, inject_receiver),
        canonical_text_of(norm_decl(d, inject_receiver), inject_receiver) == canonical_text_of(
            d,
            inject_receiver,
        ),
{
    let n1 = norm_decl(d, inject_receiver);
    let n2 = norm_decl(n1, inject_receiver);
    assert(n2.sig.params =~= n1.sig.params) by {
        assert forall|i: int| 0 <= i < n1.sig.params.len() implies n2.sig.params[i]
            == n1.sig.params[i] by {
            assert(n1.sig.params[i] == norm_param(d.sig.params[i]));
            assert(n2.sig.params[i] == norm_param(n1.sig.params[i]));
        }
    }
    assert(n2.sig =~= n1.sig);
    assert(n2 =~= n1);
}

/// The shape of a signature: the receiver, the ordered (mutability, type)
/// pairs, and the return type — everything but the binding names.
pub open spec fn sig_shape(s: FnSigV) -> (bool, Seq<(bool, Seq<char>)>, Option<Seq<char>>) {
    (s.receiver, s.params.map_values(|p: ParamV| (p.mutable, p.ty)), s.ret)
}

/// Comparison is structural, not nominal: the canonical signature text
/// depends only on the shape after normalization, never on the declared
/// name or the parameter names.
pub proof fn lemma_canonical_from_shape(a: FnSigV, b: FnSigV, ia: bool, ib: bool)
    requires
        sig_shape(norm_sig(a, ia)) == sig_shape(norm_sig(b, ib)),
    ensures
        sig_text(placeholder(), norm_sig(a, ia)) == sig_text(placeholder(), norm_sig(b, ib)),
{
    let na = norm_sig(a, ia);
    let nb = norm_sig(b, ib);
    assert(na.params =~= nb.params) by {
        assert(sig_shape(na).1.len() == sig_shape(nb).1.len());
        assert(na.params.len() == nb.params.len());
        assert forall|i: int| 0 <= i < na.params.len() implies na.params[i] == nb.params[i] by {
            assert(sig_shape(na).1[i] == (na.params[i].mutable, na.params[i].ty));
            assert(sig_shape(nb).1[i] == (nb.params[i].mutable, nb.params[i].ty));
            assert(na.params[i].name == placeholder());
            assert(nb.params[i].name == placeholder());
            assert(na.params[i] =~= nb.params[i]);
        }
    }
    assert(na =~= nb);
}

/// For a captured interface record and a command whose true
/// parameter/return shape equals the interface's after receiver injection,
/// the capture comparison succeeds, whatever the parameter or function
/// naming: the record decodes to the command's own canonical text.
pub proof fn lemma_matching_shape_accepted(cmd: FnDeclV, iface: FnDeclV, record: Seq<char>)
    requires
        decoded_interface(record) == Some(canonical_text_of(iface, false)),
        sig_shape(norm_sig(cmd.sig, true)) == sig_shape(norm_sig(iface.sig, false)),
    ensures
        decoded_interface(record) == Some(canonical_text_of(cmd, true)),
{
    lemma_canonical_from_shape(cmd.sig, iface.sig, true, false);
}

/// Rewrite `d` in place into its normalized form.
///
/// This is the identifier-erasure pass applied before structural comparison
/// and before the interface record is persisted. It is total: it never fails,
/// so an interface mismatch is always reported as a content difference.
pub fn preprocess_function_ast(d: &mut FnDecl, inject_receiver: bool)
    ensures
        final(d)@ == norm_decl(old(d)@, inject_receiver),
{
    d.attrs = Vec::new();
    d.vis = Vis::Inherited;
    d.name = "_".to_owned();
    proof {
        reveal_strlit("_");
        assert(d.name@ =~= placeholder());
    }
    d.sig.receiver = d.sig.receiver || inject_receiver;
    let n = d.sig.params.len();
    let mut i: usize = 0;
    while i < n
        invariant
            n == d.sig.params.len(),
            i <= n,
            d.attrs@.len() == 0,
            d.vis == Vis::Inherited,
            d.name@ == placeholder(),
            d.body@ == old(d)@.body,
            d.sig.receiver == (old(d)@.sig.receiver || inject_receiver),
            d.sig@.ret == old(d)@.sig.ret,
            forall|j: int|
                0 <= j < i ==> d.sig.params@[j]@ == norm_param(old(d)@.sig.params[j]),
            forall|j: int| i <= j < n ==> d.sig.params@[j]@ == old(d)@.sig.params[j],
        decreases n - i,
    {
        let mutable = d.sig.params[i].mutable;
        let ty = d.sig.params[i].ty.clone();
        let nm = "_".to_owned();
        proof {
            reveal_strlit("_");
            assert(nm@ =~= placeholder());
        }
        d.sig.params.set(i, Param { mutable, name: nm, ty });
        i = i + 1;
    }
    proof {
        assert(d@.sig.params =~= norm_decl(old(d)@, inject_receiver).sig.params);
        assert(d@.attrs =~= Seq::<Seq<char>>::empty());
        assert(d@.sig =~= norm_decl(old(d)@, inject_receiver).sig);
        assert(d@ =~= norm_decl(old(d)@, inject_receiver));
    }
}

/// Compute the canonical signature text of `d` (without changing `d`):
/// the re-serialization of its normalized form.
pub fn canonical_text(d: &FnDecl, inject_receiver: bool) -> (r: String)
    ensures
        r@ == canonical_text_of(d@, inject_receiver),
{
    let ghost ns = norm_sig(d@.sig, inject_receiver);
    let ghost items = sig_items(ns);
    let mut out: String = "fn _ (".to_owned();
    proof {
        reveal_strlit("fn _ (");
        assert(out@ =~= seq!['f', 'n', ' '] + placeholder() + seq![' ', '(']);
    }
    let ghost head = out@;
    let has_recv = d.sig.receiver || inject_receiver;
    if has_recv {
        out.append("& self");
        proof {
            reveal_strlit("& self");
            assert(items[0] == recv_text());
            assert(items.take(1) =~= seq![recv_text()]);
            assert(joined(items.take(1)) == recv_text());
            assert(out@ =~= head + joined(items.take(1)));
        }
    } else {
        proof {
            assert(items.take(0) =~= Seq::<Seq<char>>::empty());
            assert(out@ =~= head + joined(items.take(0)));
        }
    }
    let ghost base: int = if ns.receiver { 1 } else { 0 };
    let n = d.sig.params.len();
    let mut i: usize = 0;
    while i < n
        invariant
            n == d.sig.params.len(),
            i <= n,
            ns == norm_sig(d@.sig, inject_receiver),
            items == sig_items(ns),
            base == if ns.receiver { 1int } else { 0int },
            items.len() == base + n,
            has_recv == ns.receiver,
            out@ == head + joined(items.take(base + i)),
            head == seq!['f', 'n', ' '] + placeholder() + seq![' ', '('],
        decreases n - i,
    {
        let ghost written: int = base + i;
        let ghost before = out@;
        let ghost item = items[written];
        proof {
            assert(ns.params[i as int] == norm_param(d@.sig.params[i as int]));
            assert(items[base + i] == param_text(ns.params[i as int]));
        }
        if has_recv || i > 0 {
            out.append(" , ");
            proof {
                reveal_strlit(" , ");
            }
        }
        let ghost mid = out@;
        if d.sig.params[i].mutable {
            out.append("mut ");
            proof {
                reveal_strlit("mut ");
            }
        }
        out.append("_ : ");
        out.append(d.sig.params[i].ty.as_str());
        proof {
            reveal_strlit("_ : ");
            let p = ns.params[i as int];
            assert(p.name == placeholder());
            if p.mutable {
                assert(out@ =~= mid + (seq!['m', 'u', 't', ' '] + p.name + seq![' ', ':', ' ']
                    + p.ty));
            } else {
                assert(out@ =~= mid + (p.name + seq![' ', ':', ' '] + p.ty));
                assert(Seq::<char>::empty() + p.name + seq![' ', ':', ' '] + p.ty =~= p.name
                    + seq![' ', ':', ' '] + p.ty);
            }
            assert(out@ =~= mid + param_text(p));
            lemma_joined_push(items.take(written), item);
            assert(items.take(written).push(item) =~= items.take(written + 1));
            if written == 0 {
                assert(mid == before);
                assert(joined(items.take(0)) =~= Seq::<char>::empty());
                assert(head + joined(items.take(0)) =~= head);
                assert(out@ =~= head + joined(items.take(1)));
            } else {
                assert(mid =~= before + crate::sig::sep_text());
                assert(out@ =~= head + (joined(items.take(written)) + crate::sig::sep_text()
                    + item));
                assert(out@ =~= head + joined(items.take(written + 1)));
            }
        }
        i = i + 1;
    }
    proof {
        assert(items.take(items.len() as int) =~= items);
    }
    out.append(")");
    match &d.sig.ret {
        Some(t) => {
            out.append(" -> ");
            out.append(t.as_str());
        },
        None => {},
    }
    proof {
        reveal_strlit(")");
        reveal_strlit(" -> ");
        match d@.sig.ret {
            Some(rt) => {
                assert(crate::sig::ret_text(ns.ret) =~= seq![' ', '-', '>', ' '] + rt);
            },
            None => {
                assert(crate::sig::ret_text(ns.ret) =~= Seq::<char>::empty());
            },
        }
        assert(out@ =~= canonical_text_of(d@, inject_receiver));
    }
    out
}


/// No comma anywhere in a text.
pub open spec fn comma_free(t: Seq<char>) -> bool {
    forall|k: int| 0 <= k < t.len() ==> t[k] != ','
}

/// No closing parenthesis anywhere in a text.
pub open spec fn close_free(t: Seq<char>) -> bool {
    forall|k: int| 0 <= k < t.len() ==> t[k] != ')'
}

/// A type text plain enough for the textual comparison to be injective:
/// non-empty, with no comma and no closing parenthesis anywhere. A tuple
/// type such as `( u8 , u16 )`, a multi-argument generic such as
/// `Result < () , E >` or a parenthesized argument list such as
/// `Fn (u8 , u8)` falls outside this set, and the shape-difference law
/// below is not stated for it: for such texts the rendered parameter list
/// is genuinely ambiguous to split, so injectivity would need the comma
/// and parenthesis positions weighted by bracket depth.
pub open spec fn plain_ty(t: Seq<char>) -> bool {
    t.len() > 0 && comma_free(t) && close_free(t)
}

/// All parameter types and the return type of a signature are plain.
pub open spec fn plain_sig(s: FnSigV) -> bool {
    (forall|i: int| 0 <= i < s.params.len() ==> plain_ty(#[trigger] s.params[i].ty))
        && match s.ret {
        Some(t) => plain_ty(t),
        None => true,
    }
}

/// Every parameter name is the placeholder (the signature is normalized).
pub open spec fn normalized_names(s: FnSigV) -> bool {
    forall|i: int| 0 <= i < s.params.len() ==> (#[trigger] s.params[i].name) == placeholder()
}

/// Items fit for the join-injectivity argument: non-empty and comma-free.
pub open spec fn items_wf(x: Seq<Seq<char>>) -> bool {
    forall|i: int|
        0 <= i < x.len() ==> (#[trigger] x[i]).len() > 0 && comma_free(x[i])
}

proof fn lemma_item_shape(p: ParamV)
    requires
        plain_ty(p.ty),
        p.name == placeholder(),
    ensures
        param_text(p).len() > 0,
        comma_free(param_text(p)),
        close_free(param_text(p)),
        param_text(p)[0] == (if p.mutable { 'm' } else { '_' }),
{
    let t = param_text(p);
    let head: Seq<char> = if p.mutable { seq!['m', 'u', 't', ' '] } else { Seq::<char>::empty() };
    assert(t == head + p.name + seq![' ', ':', ' '] + p.ty);
    assert forall|k: int| 0 <= k < t.len() implies t[k] != ',' && t[k] != ')' by {
        if k < head.len() {
            assert(t[k] == head[k]);
        } else if k < head.len() + 1 {
            assert(t[k] == '_');
        } else if k < head.len() + 4 {
            assert(t[k] == seq![' ', ':', ' '][k - head.len() - 1]);
        } else {
            assert(t[k] == p.ty[k - head.len() - 4]);
        }
    }
    assert(t[0] == (if p.mutable { 'm' } else { '_' }));
}

proof fn lemma_sig_items_wf(s: FnSigV)
    requires
        plain_sig(s),
        normalized_names(s),
    ensures
        items_wf(sig_items(s)),
        forall|i: int| 0 <= i < sig_items(s).len() ==> close_free(#[trigger] sig_items(s)[i]),
{
    let x = sig_items(s);
    assert forall|i: int|
        0 <= i < x.len() implies (#[trigger] x[i]).len() > 0 && comma_free(x[i]) && close_free(
        x[i],
    ) by {
        if s.receiver && i == 0 {
            assert(x[i] == recv_text());
            assert(comma_free(recv_text()) && close_free(recv_text())) by {
                assert forall|k: int|
                    0 <= k < recv_text().len() implies recv_text()[k] != ','
                    && recv_text()[k] != ')' by {}
            }
        } else {
            let j = if s.receiver { i - 1 } else { i };
            assert(x[i] == param_text(s.params[j]));
            lemma_item_shape(s.params[j]);
        }
    }
}

proof fn lemma_joined_close_free(x: Seq<Seq<char>>)
    requires
        forall|i: int| 0 <= i < x.len() ==> close_free(#[trigger] x[i]),
    ensures
        close_free(joined(x)),
    decreases x.len(),
{
    if x.len() <= 1 {
    } else {
        lemma_joined_close_free(x.drop_first());
        let j = joined(x);
        assert(j == x[0] + sep_text() + joined(x.drop_first()));
        assert forall|k: int| 0 <= k < j.len() implies j[k] != ')' by {
            if k < x[0].len() {
                assert(j[k] == x[0][k]);
            } else if k < x[0].len() + 3 {
                assert(j[k] == sep_text()[k - x[0].len()]);
            } else {
                assert(j[k] == joined(x.drop_first())[k - x[0].len() - 3]);
            }
        }
    }
}

proof fn lemma_joined_min_len(x: Seq<Seq<char>>)
    requires
        x.len() > 0,
    ensures
        joined(x).len() >= x[0].len(),
        x.len() >= 2 ==> joined(x).len() >= x[0].len() + 3 + joined(x.drop_first()).len(),
{
}

/// Joining non-empty comma-free items with the ` , ` separator is
/// injective: the joined text determines the item list.
proof fn lemma_join_injective(x: Seq<Seq<char>>, y: Seq<Seq<char>>)
    requires
        items_wf(x),
        items_wf(y),
        joined(x) == joined(y),
    ensures
        x =~= y,
    decreases x.len(),
{
    let jx = joined(x);
    let jy = joined(y);
    if x.len() == 0 {
        if y.len() > 0 {
            lemma_joined_min_len(y);
            assert(y[0].len() > 0);
            assert(false);
        }
    } else if y.len() == 0 {
        lemma_joined_min_len(x);
        assert(false);
    } else if x.len() == 1 && y.len() == 1 {
        assert(x[0] == jx);
        assert(y[0] == jy);
        assert(x =~= y);
    } else if x.len() == 1 {
        assert(jx == x[0]);
        assert(jy == y[0] + sep_text() + joined(y.drop_first()));
        lemma_joined_min_len(y.drop_first());
        assert(joined(y.drop_first()).len() >= 1);
        let p = y[0].len() as int + 1;
        assert(jy[p] == sep_text()[1]);
        assert(jy[p] == ',');
        assert(p < jx.len());
        assert(jx[p] == x[0][p]);
        assert(false);
    } else if y.len() == 1 {
        assert(jy == y[0]);
        assert(jx == x[0] + sep_text() + joined(x.drop_first()));
        lemma_joined_min_len(x.drop_first());
        assert(joined(x.drop_first()).len() >= 1);
        let p = x[0].len() as int + 1;
        assert(jx[p] == sep_text()[1]);
        assert(jx[p] == ',');
        assert(p < jy.len());
        assert(jy[p] == y[0][p]);
        assert(false);
    } else {
        assert(jx == x[0] + sep_text() + joined(x.drop_first()));
        assert(jy == y[0] + sep_text() + joined(y.drop_first()));
        assert(x[0].len() == y[0].len()) by {
            if x[0].len() < y[0].len() {
                let p = x[0].len() as int + 1;
                assert(jx[p] == sep_text()[1]);
                assert(jx[p] == ',');
                if p < y[0].len() {
                    assert(jy[p] == y[0][p]);
                } else {
                    assert(p == y[0].len());
                    assert(jy[p] == sep_text()[0]);
                }
                assert(false);
            } else if y[0].len() < x[0].len() {
                let p = y[0].len() as int + 1;
                assert(jy[p] == sep_text()[1]);
                assert(jy[p] == ',');
                if p < x[0].len() {
                    assert(jx[p] == x[0][p]);
                } else {
                    assert(p == x[0].len());
                    assert(jx[p] == sep_text()[0]);
                }
                assert(false);
            }
        }
        assert(x[0] =~= y[0]) by {
            assert forall|k: int| 0 <= k < x[0].len() implies x[0][k] == y[0][k] by {
                assert(jx[k] == x[0][k]);
                assert(jy[k] == y[0][k]);
            }
        }
        assert(joined(x.drop_first()) =~= joined(y.drop_first())) by {
            let off = x[0].len() as int + 3;
            assert(jx.len() - off == joined(x.drop_first()).len());
            assert(jy.len() - off == joined(y.drop_first()).len());
            assert forall|k: int|
                0 <= k < joined(x.drop_first()).len() implies joined(x.drop_first())[k] == joined(
                y.drop_first(),
            )[k] by {
                assert(jx[off + k] == joined(x.drop_first())[k]);
                assert(jy[off + k] == joined(y.drop_first())[k]);
            }
        }
        lemma_join_injective(x.drop_first(), y.drop_first());
        assert(x =~= y) by {
            assert(x.len() == y.len());
            assert forall|i: int| 0 <= i < x.len() implies x[i] == y[i] by {
                if i == 0 {
                } else {
                    assert(x.drop_first()[i - 1] == y.drop_first()[i - 1]);
                }
            }
        }
    }
}

proof fn lemma_param_text_injective(p: ParamV, q: ParamV)
    requires
        p.name == placeholder(),
        q.name == placeholder(),
        param_text(p) == param_text(q),
    ensures
        p.mutable == q.mutable,
        p.ty == q.ty,
{
    let tp = param_text(p);
    let tq = param_text(q);
    let hp: Seq<char> = if p.mutable { seq!['m', 'u', 't', ' '] } else { Seq::<char>::empty() };
    let hq: Seq<char> = if q.mutable { seq!['m', 'u', 't', ' '] } else { Seq::<char>::empty() };
    assert(tp == hp + p.name + seq![' ', ':', ' '] + p.ty);
    assert(tq == hq + q.name + seq![' ', ':', ' '] + q.ty);
    assert(tp[0] == (if p.mutable { 'm' } else { '_' }));
    assert(tq[0] == (if q.mutable { 'm' } else { '_' }));
    assert(p.mutable == q.mutable);
    let off = hp.len() as int + 4;
    assert(p.ty =~= q.ty) by {
        assert(tp.len() - off == p.ty.len());
        assert(tq.len() - off == q.ty.len());
        assert forall|k: int| 0 <= k < p.ty.len() implies p.ty[k] == q.ty[k] by {
            assert(tp[off + k] == p.ty[k]);
            assert(tq[off + k] == q.ty[k]);
        }
    }
}

/// The textual comparison is injective on plain normalized signatures: two
/// that render to byte-identical canonical text agree in receiver, arity,
/// order, every parameter's mutability and type, and the return type. So a
/// command differing from the interface in any of these cannot compare
/// equal, and the capture phase must reject it with the interface-mismatch
/// failure. The law is stated only for plain type texts (`plain_ty`); the
/// capture functions themselves place no such demand on their callers.
pub proof fn lemma_canonical_text_injective(a: FnSigV, b: FnSigV)
    requires
        plain_sig(a),
        plain_sig(b),
        normalized_names(a),
        normalized_names(b),
        sig_text(placeholder(), a) == sig_text(placeholder(), b),
    ensures
        sig_shape(a) == sig_shape(b),
{
    let ta = sig_text(placeholder(), a);
    let tb = sig_text(placeholder(), b);
    let ja = joined(sig_items(a));
    let jb = joined(sig_items(b));
    let ra = crate::sig::ret_text(a.ret);
    let rb = crate::sig::ret_text(b.ret);
    let pre: Seq<char> = seq!['f', 'n', ' '] + placeholder() + seq![' ', '('];
    assert(ta == pre + ja + seq![')'] + ra);
    assert(tb == pre + jb + seq![')'] + rb);
    lemma_sig_items_wf(a);
    lemma_sig_items_wf(b);
    lemma_joined_close_free(sig_items(a));
    lemma_joined_close_free(sig_items(b));
    assert(ja.len() == jb.len()) by {
        if ja.len() < jb.len() {
            let p = 6 + ja.len() as int;
            assert(ta[p] == seq![')'][0]);
            assert(tb[p] == jb[p - 6]);
            assert(false);
        } else if jb.len() < ja.len() {
            let p = 6 + jb.len() as int;
            assert(tb[p] == seq![')'][0]);
            assert(ta[p] == ja[p - 6]);
            assert(false);
        }
    }
    assert(ja =~= jb) by {
        assert forall|k: int| 0 <= k < ja.len() implies ja[k] == jb[k] by {
            assert(ta[6 + k] == ja[k]);
            assert(tb[6 + k] == jb[k]);
        }
    }
    lemma_join_injective(sig_items(a), sig_items(b));
    let xa = sig_items(a);
    let xb = sig_items(b);
    assert(a.receiver == b.receiver) by {
        if a.receiver != b.receiver {
            if a.receiver {
                assert(xa[0] == recv_text());
                assert(xb.len() == xa.len());
                assert(xa.len() >= 1);
                assert(b.params.len() >= 1);
                assert(xb[0] == param_text(b.params[0]));
                lemma_item_shape(b.params[0]);
                assert(xb[0][0] != '&');
                assert(xa[0][0] == '&');
            } else {
                assert(xb[0] == recv_text());
                assert(xa.len() == xb.len());
                assert(xb.len() >= 1);
                assert(a.params.len() >= 1);
                assert(xa[0] == param_text(a.params[0]));
                lemma_item_shape(a.params[0]);
                assert(xa[0][0] != '&');
                assert(xb[0][0] == '&');
            }
            assert(false);
        }
    }
    let base: int = if a.receiver { 1 } else { 0 };
    assert(a.params.len() == b.params.len());
    assert(sig_shape(a).1 =~= sig_shape(b).1) by {
        assert forall|i: int| 0 <= i < a.params.len() implies sig_shape(a).1[i] == sig_shape(
            b,
        ).1[i] by {
            assert(xa[base + i] == param_text(a.params[i]));
            assert(xb[base + i] == param_text(b.params[i]));
            lemma_param_text_injective(a.params[i], b.params[i]);
        }
    }
    assert(a.ret == b.ret) by {
        assert(ra =~= rb) by {
            let off = 6 + ja.len() as int + 1;
            assert(ta.len() - off == ra.len());
            assert(tb.len() - off == rb.len());
            assert forall|k: int| 0 <= k < ra.len() implies ra[k] == rb[k] by {
                assert(ta[off + k] == ra[k]);
                assert(tb[off + k] == rb[k]);
            }
        }
        match a.ret {
            None => {
                if b.ret is Some {
                    assert(rb.len() >= 4);
                    assert(ra.len() == 0);
                    assert(false);
                }
            },
            Some(at) => {
                match b.ret {
                    None => {
                        assert(ra.len() >= 4);
                        assert(rb.len() == 0);
                        assert(false);
                    },
                    Some(bt) => {
                        assert(at =~= bt) by {
                            assert(ra == seq![' ', '-', '>', ' '] + at);
                            assert(rb == seq![' ', '-', '>', ' '] + bt);
                            assert(at.len() == bt.len());
                            assert forall|k: int| 0 <= k < at.len() implies at[k] == bt[k] by {
                                assert(ra[4 + k] == at[k]);
                                assert(rb[4 + k] == bt[k]);
                            }
                        }
                    },
                }
            },
        }
    }
    assert(sig_shape(a) == sig_shape(b));
}

/// For a captured interface record and a command whose shape differs from
/// the interface's — in receiver, arity, order, any parameter's mutability
/// or type, or the return type — the capture comparison cannot succeed:
/// the record does not decode to the command's canonical text, so capture
/// reports the interface mismatch with both canonical forms.
pub proof fn lemma_differing_shape_rejected(cmd: FnDeclV, iface: FnDeclV, record: Seq<char>)
    requires
        crate::store::decoded_interface(record) == Some(canonical_text_of(iface, false)),
        plain_sig(cmd.sig),
        plain_sig(iface.sig),
        sig_shape(norm_sig(cmd.sig, true)) != sig_shape(norm_sig(iface.sig, false)),
    ensures
        crate::store::decoded_interface(record) != Some(canonical_text_of(cmd, true)),
{
    let nc = norm_sig(cmd.sig, true);
    let ni = norm_sig(iface.sig, false);
    assert(plain_sig(nc)) by {
        assert forall|i: int| 0 <= i < nc.params.len() implies plain_ty(
            #[trigger] nc.params[i].ty,
        ) by {
            assert(nc.params[i] == norm_param(cmd.sig.params[i]));
        }
    }
    assert(plain_sig(ni)) by {
        assert forall|i: int| 0 <= i < ni.params.len() implies plain_ty(
            #[trigger] ni.params[i].ty,
        ) by {
            assert(ni.params[i] == norm_param(iface.sig.params[i]));
        }
    }
    assert(normalized_names(nc)) by {
        assert forall|i: int| 0 <= i < nc.params.len() implies (#[trigger] nc.params[i].name)
            == placeholder() by {
            assert(nc.params[i] == norm_param(cmd.sig.params[i]));
        }
    }
    assert(normalized_names(ni)) by {
        assert forall|i: int| 0 <= i < ni.params.len() implies (#[trigger] ni.params[i].name)
            == placeholder() by {
            assert(ni.params[i] == norm_param(iface.sig.params[i]));
        }
    }
    if canonical_text_of(cmd, true) == canonical_text_of(iface, false) {
        lemma_canonical_text_injective(nc, ni);
        assert(false);
    }
}

} // verus!
