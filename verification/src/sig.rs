//! The model of a function/method declaration: what the pipeline reads of a
//! declaration (decoration, visibility, name, parameter shapes, return type,
//! body text), together with its textual renderings.
//!
//! Two renderings matter. The *canonical signature text* is the
//! identifier-erased form used for structural interface comparison; the *full
//! declaration text* is the runnable form persisted into a fragment.

use vstd::prelude::*;

verus! {

/// Visibility of a declaration; normalization resets it to `Inherited`.
#[derive(Clone, Copy, PartialEq, Eq, Structural)]
pub enum Vis {
    Public,
    Inherited,
}

/// One non-receiver parameter: an optional `mut` binding qualifier, the
/// binding name, and the parameter type's text.
pub struct Param {
    pub mutable: bool,
    pub name: String,
    pub ty: String,
}

/// A function signature: whether a `&self` receiver is present, the ordered
/// parameters, and the optional return type text.
pub struct FnSig {
    pub receiver: bool,
    pub params: Vec<Param>,
    pub ret: Option<String>,
}

/// A whole declaration: attribute texts, visibility, name, signature and
/// body text. Trait method declarations use an empty body.
pub struct FnDecl {
    pub attrs: Vec<String>,
    pub vis: Vis,
    pub name: String,
    pub sig: FnSig,
    pub body: String,
}

#[verifier::ext_equal]
pub struct ParamV {
    pub mutable: bool,
    pub name: Seq<char>,
    pub ty: Seq<char>,
}

#[verifier::ext_equal]
pub struct FnSigV {
    pub receiver: bool,
    pub params: Seq<ParamV>,
    pub ret: Option<Seq<char>>,
}

#[verifier::ext_equal]
pub struct FnDeclV {
    pub attrs: Seq<Seq<char>>,
    pub vis: Vis,
    pub name: Seq<char>,
    pub sig: FnSigV,
    pub body: Seq<char>,
}

impl View for Param {
    type V = ParamV;

    open spec fn view(&self) -> ParamV {
        ParamV { mutable: self.mutable, name: self.name@, ty: self.ty@ }
    }
}

impl View for FnSig {
    type V = FnSigV;

    open spec fn view(&self) -> FnSigV {
        FnSigV {
            receiver: self.receiver,
            params: self.params@.map_values(|p: Param| p@),
            ret: match self.ret {
                Some(ref t) => Some(t@),
                None => None,
            },
        }
    }
}

impl View for FnDecl {
    type V = FnDeclV;

    open spec fn view(&self) -> FnDeclV {
        FnDeclV {
            attrs: self.attrs@.map_values(|a: String| a@),
            vis: self.vis,
            name: self.name@,
            sig: self.sig@,
            body: self.body@,
        }
    }
}

/// The text of a `&self` receiver in a rendered parameter list.
pub open spec fn recv_text() -> Seq<char> {
    seq!['&', ' ', 's', 'e', 'l', 'f']
}

/// The separator between rendered parameter-list items.
pub open spec fn sep_text() -> Seq<char> {
    seq![' ', ',', ' ']
}

/// The rendering of one parameter: `mut name : Ty` or `name : Ty`.
pub open spec fn param_text(p: ParamV) -> Seq<char> {
    (if p.mutable {
        seq!['m', 'u', 't', ' ']
    } else {
        Seq::<char>::empty()
    }) + p.name + seq![' ', ':', ' '] + p.ty
}

/// Parameter-list items in order: the receiver text if present, then each
/// rendered parameter.
pub open spec fn sig_items(s: FnSigV) -> Seq<Seq<char>> {
    (if s.receiver {
        seq![recv_text()]
    } else {
        Seq::<Seq<char>>::empty()
    }) + s.params.map_values(|p: ParamV| param_text(p))
}

/// Join items with ` , ` between them.
pub open spec fn joined(items: Seq<Seq<char>>) -> Seq<char>
    decreases items.len(),
{
    if items.len() == 0 {
        Seq::<char>::empty()
    } else if items.len() == 1 {
        items[0]
    } else {
        items[0] + sep_text() + joined(items.drop_first())
    }
}

/// The rendering of the return-type position: empty, or ` -> Ty`.
pub open spec fn ret_text(r: Option<Seq<char>>) -> Seq<char> {
    match r {
        None => Seq::<char>::empty(),
        Some(t) => seq![' ', '-', '>', ' '] + t,
    }
}

/// The text of a signature under a given name:
/// `fn <name> (<items>)<ret>`.
pub open spec fn sig_text(name: Seq<char>, s: FnSigV) -> Seq<char> {
    seq!['f', 'n', ' '] + name + seq![' ', '('] + joined(sig_items(s)) + seq![')'] + ret_text(s.ret)
}

/// The rendering of the attribute list: `#[a] #[b] ` and so on.
pub open spec fn attrs_text(attrs: Seq<Seq<char>>) -> Seq<char>
    decreases attrs.len(),
{
    if attrs.len() == 0 {
        Seq::<char>::empty()
    } else {
        seq!['#', '['] + attrs[0] + seq![']', ' '] + attrs_text(attrs.drop_first())
    }
}

/// The rendering of a visibility: `pub ` or nothing.
pub open spec fn vis_text(v: Vis) -> Seq<char> {
    match v {
        Vis::Public => seq!['p', 'u', 'b', ' '],
        Vis::Inherited => Seq::<char>::empty(),
    }
}

/// The full declaration text: attributes, visibility, signature, and the
/// body wrapped in braces.
pub open spec fn decl_text(d: FnDeclV) -> Seq<char> {
    attrs_text(d.attrs) + vis_text(d.vis) + sig_text(d.name, d.sig) + seq![' ', '{', ' '] + d.body
        + seq![' ', '}']
}

/// Joining after appending one more item appends a separator and the item.
pub proof fn lemma_joined_push(items: Seq<Seq<char>>, x: Seq<char>)
    ensures
        joined(items.push(x)) == if items.len() == 0 {
            x
        } else {
            joined(items) + sep_text() + x
        },
    decreases items.len(),
{
    let p = items.push(x);
    if items.len() == 0 {
        assert(p.len() == 1);
        assert(p[0] == x);
    } else if items.len() == 1 {
        assert(p.len() == 2);
        assert(p[0] == items[0]);
        assert(p.drop_first() =~= seq![x]);
        assert(joined(p.drop_first()) == x);
        assert(joined(items) == items[0]);
    } else {
        assert(p[0] == items[0]);
        assert(p.drop_first() =~= items.drop_first().push(x));
        lemma_joined_push(items.drop_first(), x);
        assert(joined(items.drop_first().push(x)) == joined(items.drop_first()) + sep_text() + x);
        assert(joined(p) == items[0] + sep_text() + (joined(items.drop_first()) + sep_text() + x));
        assert(items[0] + sep_text() + (joined(items.drop_first()) + sep_text() + x) =~= (items[0]
            + sep_text() + joined(items.drop_first())) + sep_text() + x);
    }
}

/// The same declaration with a `&self` receiver injected when asked for.
pub open spec fn with_receiver(d: FnDeclV, inject_receiver: bool) -> FnDeclV {
    FnDeclV {
        attrs: d.attrs,
        vis: d.vis,
        name: d.name,
        sig: FnSigV {
            receiver: d.sig.receiver || inject_receiver,
            params: d.sig.params,
            ret: d.sig.ret,
        },
        body: d.body,
    }
}

/// Rendering the attribute list appends per attribute.
pub proof fn lemma_attrs_push(attrs: Seq<Seq<char>>, a: Seq<char>)
    ensures
        attrs_text(attrs.push(a)) == attrs_text(attrs) + (seq!['#', '['] + a + seq![']', ' ']),
    decreases attrs.len(),
{
    let p = attrs.push(a);
    if attrs.len() == 0 {
        assert(p[0] == a);
        assert(p.drop_first() =~= Seq::<Seq<char>>::empty());
        assert(attrs_text(p.drop_first()) == Seq::<char>::empty());
        assert(attrs_text(p) =~= attrs_text(attrs) + (seq!['#', '['] + a + seq![']', ' ']));
    } else {
        assert(p[0] == attrs[0]);
        assert(p.drop_first() =~= attrs.drop_first().push(a));
        lemma_attrs_push(attrs.drop_first(), a);
        assert(attrs_text(p) =~= attrs_text(attrs) + (seq!['#', '['] + a + seq![']', ' ']));
    }
}

/// Serialize a whole declaration, injecting a receiver when asked for: the
/// runnable source text persisted into a fragment (attributes, visibility,
/// the real name, the parameter list, the return type, and the body).
#[verifier::rlimit(100)]
pub fn render_decl(d: &FnDecl, inject_receiver: bool) -> (r: String)
    ensures
        r@ == decl_text(with_receiver(d@, inject_receiver)),
{
    let ghost dv = with_receiver(d@, inject_receiver);
    let ghost items = sig_items(dv.sig);
    let mut out = String::new();
    let na = d.attrs.len();
    let mut ai: usize = 0;
    while ai < na
        invariant
            na == d.attrs@.len(),
            ai <= na,
            dv == with_receiver(d@, inject_receiver),
            out@ == attrs_text(dv.attrs.take(ai as int)),
        decreases na - ai,
    {
        let ghost before = out@;
        out.append("#[");
        out.append(d.attrs[ai].as_str());
        out.append("] ");
        proof {
            reveal_strlit("#[");
            reveal_strlit("] ");
            assert(out@ =~= before + (seq!['#', '['] + dv.attrs[ai as int] + seq![']', ' ']));
            lemma_attrs_push(dv.attrs.take(ai as int), dv.attrs[ai as int]);
            assert(dv.attrs.take(ai as int).push(dv.attrs[ai as int]) =~= dv.attrs.take(
                ai as int + 1,
            ));
        }
        ai = ai + 1;
    }
    proof {
        assert(dv.attrs.take(na as int) =~= dv.attrs);
    }
    match d.vis {
        Vis::Public => {
            out.append("pub ");
            proof {
                reveal_strlit("pub ");
                assert(out@ =~= attrs_text(dv.attrs) + vis_text(dv.vis));
            }
        },
        Vis::Inherited => {
            proof {
                assert(vis_text(dv.vis) =~= Seq::<char>::empty());
                assert(out@ =~= attrs_text(dv.attrs) + vis_text(dv.vis));
            }
        },
    }
    out.append("fn ");
    out.append(d.name.as_str());
    out.append(" (");
    let ghost head = out@;
    proof {
        reveal_strlit("fn ");
        reveal_strlit(" (");
        assert(head =~= attrs_text(dv.attrs) + vis_text(dv.vis) + (seq!['f', 'n', ' '] + dv.name
            + seq![' ', '(']));
    }
    let has_recv = d.sig.receiver || inject_receiver;
    if has_recv {
        out.append("& self");
        proof {
            reveal_strlit("& self");
            assert(items[0] == recv_text());
            assert(items.take(1) =~= seq![recv_text()]);
            assert(joined(items.take(1)) == recv_text());
            assert(out@ =~= head + joined(items.take(1)));
        }
    } else {
        proof {
            assert(items.take(0) =~= Seq::<Seq<char>>::empty());
            assert(out@ =~= head + joined(items.take(0)));
        }
    }
    let ghost base: int = if dv.sig.receiver { 1 } else { 0 };
    let n = d.sig.params.len();
    let mut i: usize = 0;
    while i < n
        invariant
            n == d.sig.params.len(),
            i <= n,
            dv == with_receiver(d@, inject_receiver),
            items == sig_items(dv.sig),
            base == if dv.sig.receiver { 1int } else { 0int },
            items.len() == base + n,
            has_recv == dv.sig.receiver,
            out@ == head + joined(items.take(base + i)),
        decreases n - i,
    {
        let ghost written: int = base + i;
        let ghost before = out@;
        let ghost item = items[written];
        proof {
            assert(items[base + i] == param_text(dv.sig.params[i as int]));
        }
        if has_recv || i > 0 {
            out.append(" , ");
            proof {
                reveal_strlit(" , ");
            }
        }
        let ghost mid = out@;
        if d.sig.params[i].mutable {
            out.append("mut ");
            proof {
                reveal_strlit("mut ");
            }
        }
        out.append(d.sig.params[i].name.as_str());
        out.append(" : ");
        out.append(d.sig.params[i].ty.as_str());
        proof {
            reveal_strlit(" : ");
            let p = dv.sig.params[i as int];
            if p.mutable {
                assert(out@ =~= mid + (seq!['m', 'u', 't', ' '] + p.name + seq![' ', ':', ' ']
                    + p.ty));
            } else {
                assert(out@ =~= mid + (p.name + seq![' ', ':', ' '] + p.ty));
                assert(Seq::<char>::empty() + p.name + seq![' ', ':', ' '] + p.ty =~= p.name
                    + seq![' ', ':', ' '] + p.ty);
            }
            assert(out@ =~= mid + param_text(p));
            lemma_joined_push(items.take(written), item);
            assert(items.take(written).push(item) =~= items.take(written + 1));
            if written == 0 {
                assert(mid == before);
                assert(joined(items.take(0)) =~= Seq::<char>::empty());
                assert(head + joined(items.take(0)) =~= head);
                assert(out@ =~= head + joined(items.take(1)));
            } else {
                assert(mid =~= before + sep_text());
                assert(out@ =~= head + (joined(items.take(written)) + sep_text() + item));
                assert(out@ =~= head + joined(items.take(written + 1)));
            }
        }
        i = i + 1;
    }
    proof {
        assert(items.take(items.len() as int) =~= items);
    }
    out.append(")");
    match &d.sig.ret {
        Some(t) => {
            out.append(" -> ");
            out.append(t.as_str());
        },
        None => {},
    }
    let ghost with_ret = out@;
    proof {
        reveal_strlit(")");
        reveal_strlit(" -> ");
        match dv.sig.ret {
            Some(rt) => {
                assert(ret_text(dv.sig.ret) =~= seq![' ', '-', '>', ' '] + rt);
            },
            None => {
                assert(ret_text(dv.sig.ret) =~= Seq::<char>::empty());
            },
        }
        assert(with_ret =~= attrs_text(dv.attrs) + vis_text(dv.vis) + sig_text(dv.name, dv.sig));
    }
    out.append(" { ");
    out.append(d.body.as_str());
    out.append(" }");
    proof {
        reveal_strlit(" { ");
        reveal_strlit(" }");
        assert(out@ =~= decl_text(dv));
    }
    out
}

} // verus!
