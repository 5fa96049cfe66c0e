//! The interface capture phase and the registry generation phase.
//!
//! Interface capture records the canonical signature of the single abstract
//! interface method as the ground truth for all later commands. Registry
//! generation walks the fragment store and synthesizes, per fragment, a
//! constant, a zero-state marker type, and an interface implementation whose
//! method is the captured source renamed to the fixed dispatch method name;
//! the markers become the variants of the closed dispatch type, whose
//! default variant must be the marker named `Nope` — never fabricated.

use vstd::prelude::*;

use crate::casing::{to_upper_camel, to_upper_snake, upper_camel_of, upper_snake_of};
use crate::normalize::{canonical_text, canonical_text_of};
use crate::sig::FnDecl;
use crate::store::{
    b64_of, decoded_fragment, decoded_interface, get_json_payload, interface_text,
    set_interface_payload, str_chars,
};

verus! {

/// Capture the interface: serialize the interface record document holding
/// the canonical (identifier-erased, no receiver injected — the interface
/// declares its own) signature text of the abstract method. The caller's
/// declaration itself passes through unchanged; the record text is what the
/// well-known store location receives, overwriting any prior record.
pub fn wgse_command_interface_impl(decl: &FnDecl) -> (r: String)
    ensures
        r@ == interface_text(b64_of(canonical_text_of(decl@, false))),
        decoded_interface(r@) == Some(canonical_text_of(decl@, false)),
{
    let canon = canonical_text(decl, false);
    set_interface_payload(canon.as_str())
}

/// The index where the `fn` keyword begins: attribute groups `#[...] ` are
/// skipped. `None` when the text is not decorated declaration text.
pub open spec fn fn_start(s: Seq<char>, i: int) -> Option<int>
    decreases s.len() - i, 1int,
{
    if !(0 <= i <= s.len()) {
        None
    } else if i + 1 < s.len() && s[i] == '#' && s[i + 1] == '[' {
        fn_after_attr(s, i + 2)
    } else {
        Some(i)
    }
}

/// Scan past the rest of one attribute group (to its `]` and the following
/// space), then continue skipping groups.
pub open spec fn fn_after_attr(s: Seq<char>, i: int) -> Option<int>
    decreases s.len() - i, 0int,
{
    if !(0 <= i < s.len()) {
        None
    } else if s[i] == ']' {
        if i + 1 < s.len() && s[i + 1] == ' ' {
            fn_start(s, i + 2)
        } else {
            None
        }
    } else {
        fn_after_attr(s, i + 1)
    }
}

/// The index of the first space at or after `i` (the end of the declared
/// name), or the text's length.
pub open spec fn name_end(s: Seq<char>, i: int) -> int
    decreases s.len() - i,
{
    if !(0 <= i < s.len()) {
        s.len() as int
    } else if s[i] == ' ' {
        i
    } else {
        name_end(s, i + 1)
    }
}

/// The dispatch method name every captured callable is renamed to.
pub open spec fn execute_name() -> Seq<char> {
    seq!['e', 'x', 'e', 'c', 'u', 't', 'e']
}

/// The closing delimiter matching an opener.
pub open spec fn close_of(c: char) -> char {
    if c == '(' {
        ')'
    } else if c == '[' {
        ']'
    } else {
        '}'
    }
}

/// Delimiters balanced from `i` on, with the expected closers on `st`,
/// skipping string literals (mode 1 inside a string, mode 2 right after a
/// backslash there) and character literals; mode 0 is ordinary text.
pub open spec fn bal(s: Seq<char>, i: int, st: Seq<char>, mode: int) -> bool
    decreases s.len() - i,
{
    if !(0 <= i < s.len()) {
        st.len() == 0 && mode == 0
    } else {
        let c = s[i];
        if mode == 1 {
            if c == '\\' {
            bal(s, i + 1, st, 2)
        } else if c == '"' {
            bal(s, i + 1, st, 0)
        } else {
            bal(s, i + 1, st, 1)
        }
        } else if mode == 2 {
            bal(s, i + 1, st, 1)
        } else if c == '"' {
            bal(s, i + 1, st, 1)
        } else if c == '\'' {
            if i + 2 < s.len() && s[i + 1] != '\\' && s[i + 2] == '\'' {
                bal(s, i + 3, st, 0)
            } else if i + 3 < s.len() && s[i + 1] == '\\' && s[i + 3] == '\'' {
                bal(s, i + 4, st, 0)
            } else {
                bal(s, i + 1, st, 0)
            }
        } else if c == '(' || c == '[' || c == '{' {
            bal(s, i + 1, st.push(close_of(c)), 0)
        } else if c == ')' || c == ']' || c == '}' {
            st.len() > 0 && st.last() == c && bal(s, i + 1, st.drop_last(), 0)
        } else {
            bal(s, i + 1, st, 0)
        }
    }
}

/// Every delimiter in the text is properly matched (outside string and
/// character literals).
pub open spec fn balanced_text(s: Seq<char>) -> bool {
    bal(s, 0, Seq::<char>::empty(), 0)
}

/// Rewrite captured declaration text for attachment to a marker type:
/// attributes are kept, the visibility is reduced to its most restrictive
/// form, and the declared name becomes the dispatch method name. `None`
/// unless the text reads as declaration text: a decorated prefix, the
/// declared name followed by its parameter list, matched delimiters
/// throughout, and a brace-closed tail — the shape of every persisted
/// fragment. Text that fails this aborts the generation phase.
pub open spec fn rewrite_impl(s: Seq<char>) -> Option<Seq<char>> {
    match fn_start(s, 0) {
        None => None,
        Some(a) => {
            let b = if a + 4 <= s.len() && s.subrange(a, a + 4) == seq!['p', 'u', 'b', ' '] {
                a + 4
            } else {
                a
            };
            if b + 3 <= s.len() && s[b] == 'f' && s[b + 1] == 'n' && s[b + 2] == ' ' {
                let e = name_end(s, b + 3);
                if b + 3 < e && e + 1 < s.len() && s[e + 1] == '(' && s[s.len() - 1] == '}'
                    && balanced_text(s) {
                    Some(
                        s.subrange(0, a) + seq!['f', 'n', ' '] + execute_name() + s.subrange(
                            e,
                            s.len() as int,
                        ),
                    )
                } else {
                    None
                }
            } else {
                None
            }
        },
    }
}

fn fn_start_exec(s: &Vec<char>, i: usize) -> (r: Option<usize>)
    requires
        i <= s@.len(),
    ensures
        match r {
            Some(a) => fn_start(s@, i as int) == Some(a as int) && i <= a && a <= s@.len(),
            None => fn_start(s@, i as int) is None,
        },
    decreases s@.len() - i, 1int,
{
    if s.len() - i > 1 && s[i] == '#' && s[i + 1] == '[' {
        fn_after_attr_exec(s, i + 2)
    } else {
        Some(i)
    }
}

fn fn_after_attr_exec(s: &Vec<char>, i: usize) -> (r: Option<usize>)
    requires
        i <= s@.len(),
    ensures
        match r {
            Some(a) => fn_after_attr(s@, i as int) == Some(a as int) && i <= a && a <= s@.len(),
            None => fn_after_attr(s@, i as int) is None,
        },
    decreases s@.len() - i, 0int,
{
    if i >= s.len() {
        None
    } else if s[i] == ']' {
        if i + 1 < s.len() && s[i + 1] == ' ' {
            fn_start_exec(s, i + 2)
        } else {
            None
        }
    } else {
        fn_after_attr_exec(s, i + 1)
    }
}

fn name_end_exec(s: &Vec<char>, i: usize) -> (r: usize)
    requires
        i <= s@.len(),
    ensures
        r as int == name_end(s@, i as int),
        i <= r <= s@.len(),
    decreases s@.len() - i,
{
    if i >= s.len() {
        s.len()
    } else if s[i] == ' ' {
        i
    } else {
        name_end_exec(s, i + 1)
    }
}

/// Delimiter matching, executable form: exactly the specification-level
/// `balanced_text`.
fn balanced_exec(s: &Vec<char>) -> (r: bool)
    ensures
        r == balanced_text(s@),
{
    let mut st: Vec<char> = Vec::new();
    let mut i: usize = 0;
    let mut mode: u8 = 0;
    loop
        invariant
            i <= s@.len(),
            mode == 0 || mode == 1 || mode == 2,
            balanced_text(s@) == bal(s@, i as int, st@, mode as int),
        decreases s@.len() - i,
    {
        if i >= s.len() {
            return st.len() == 0 && mode == 0;
        }
        let c = s[i];
        if mode == 1 {
            if c == '\\' {
                mode = 2;
            } else if c == '"' {
                mode = 0;
            }
            i = i + 1;
        } else if mode == 2 {
            mode = 1;
            i = i + 1;
        } else if c == '"' {
            mode = 1;
            i = i + 1;
        } else if c == '\'' {
            if s.len() - i > 2 && !(s[i + 1] == '\\') && s[i + 2] == '\'' {
                i = i + 3;
            } else if s.len() - i > 3 && s[i + 1] == '\\' && s[i + 3] == '\'' {
                i = i + 4;
            } else {
                i = i + 1;
            }
        } else if c == '(' {
            st.push(')');
            i = i + 1;
        } else if c == '[' {
            st.push(']');
            i = i + 1;
        } else if c == '{' {
            st.push('}');
            i = i + 1;
        } else if c == ')' || c == ']' || c == '}' {
            match st.pop() {
                None => {
                    return false;
                },
                Some(t) => {
                    if t != c {
                        return false;
                    }
                    proof {
                        assert(st@.push(t).drop_last() =~= st@);
                    }
                    i = i + 1;
                },
            }
        } else {
            i = i + 1;
        }
    }
}

/// Rewrite captured declaration text, executable form: exactly the
/// specification-level `rewrite_impl`.
pub fn rewrite_for_impl(raw: &str) -> (r: Option<String>)
    ensures
        match r {
            Some(t) => rewrite_impl(raw@) == Some(t@),
            None => rewrite_impl(raw@) is None,
        },
{
    let s = str_chars(raw);
    let a = match fn_start_exec(&s, 0) {
        None => {
            return None;
        },
        Some(a) => a,
    };
    let mut b = a;
    if s.len() - a >= 4 && s[a] == 'p' && s[a + 1] == 'u' && s[a + 2] == 'b' && s[a + 3] == ' ' {
        b = a + 4;
        proof {
            assert(s@.subrange(a as int, a as int + 4) =~= seq!['p', 'u', 'b', ' ']);
        }
    } else {
        proof {
            if a + 4 <= s@.len() && s@.subrange(a as int, a as int + 4) == seq!['p', 'u', 'b', ' '] {
                assert(s@[a as int] == 'p' && s@[a as int + 1] == 'u' && s@[a as int + 2] == 'b'
                    && s@[a as int + 3] == ' ') by {
                    assert(s@.subrange(a as int, a as int + 4)[0] == s@[a as int]);
                    assert(s@.subrange(a as int, a as int + 4)[1] == s@[a as int + 1]);
                    assert(s@.subrange(a as int, a as int + 4)[2] == s@[a as int + 2]);
                    assert(s@.subrange(a as int, a as int + 4)[3] == s@[a as int + 3]);
                }
            }
        }
    }
    if !(s.len() - b >= 3 && s[b] == 'f' && s[b + 1] == 'n' && s[b + 2] == ' ') {
        return None;
    }
    let e = name_end_exec(&s, b + 3);
    if !(b + 3 < e && s.len() - e > 1 && s[e + 1] == '(') {
        return None;
    }
    if !(s[s.len() - 1] == '}') {
        return None;
    }
    if !balanced_exec(&s) {
        return None;
    }
    let mut out: Vec<char> = Vec::new();
    let mut i: usize = 0;
    while i < a
        invariant
            i <= a,
            a <= s@.len(),
            out@ == s@.subrange(0, i as int),
        decreases a - i,
    {
        out.push(s[i]);
        proof {
            assert(out@ =~= s@.subrange(0, i as int + 1));
        }
        i = i + 1;
    }
    out.push('f');
    out.push('n');
    out.push(' ');
    out.push('e');
    out.push('x');
    out.push('e');
    out.push('c');
    out.push('u');
    out.push('t');
    out.push('e');
    proof {
        assert(out@ =~= s@.subrange(0, a as int) + seq!['f', 'n', ' '] + execute_name());
    }
    let ghost mid = out@;
    let mut j: usize = e;
    while j < s.len()
        invariant
            e <= j <= s@.len(),
            mid == s@.subrange(0, a as int) + seq!['f', 'n', ' '] + execute_name(),
            out@ == mid + s@.subrange(e as int, j as int),
        decreases s@.len() - j,
    {
        out.push(s[j]);
        proof {
            assert(out@ =~= mid + s@.subrange(e as int, j as int + 1));
        }
        j = j + 1;
    }
    proof {
        assert(out@ =~= s@.subrange(0, a as int) + seq!['f', 'n', ' '] + execute_name()
            + s@.subrange(e as int, s@.len() as int));
    }
    Some(crate::store::chars_string(&out))
}

/// One synthesized command: the constant (name and code value), the marker
/// type identifier, and the interface implementation's method source.
#[derive(Debug)]
pub struct GeneratedCommand {
    pub const_name: String,
    pub code: u8,
    pub marker: String,
    pub method_source: String,
}

/// A failure of the generation phase: the named file's fragment cannot be
/// decoded, and no partial registry is emitted.
#[derive(Debug)]
pub enum GenError {
    FragmentDecode { file: String },
}

/// The marker text of the mandatory default variant.
pub open spec fn nope_marker() -> Seq<char> {
    seq!['N', 'o', 'p', 'e']
}

/// What one fragment document text contributes: its display name, its code,
/// and its rewritten method source; `None` when it cannot be decoded.
pub open spec fn fragment_gen(text: Seq<char>) -> Option<(Seq<char>, u8, Seq<char>)> {
    match decoded_fragment(text) {
        None => None,
        Some(p) => match rewrite_impl(p.2) {
            None => None,
            Some(m) => Some((p.0, p.1, m)),
        },
    }
}

/// Whether a generated command is exactly what a fragment text yields.
pub open spec fn gen_matches(c: GeneratedCommand, text: Seq<char>) -> bool {
    match fragment_gen(text) {
        None => false,
        Some(p) => c.marker@ == upper_camel_of(p.0) && c.const_name@ == upper_snake_of(
            upper_camel_of(p.0),
        ) && c.code == p.1 && c.method_source@ == p.2,
    }
}

/// Decode every fragment file (in walk order) into its synthesized command.
/// All-or-nothing: the first file whose fragment cannot be decoded aborts
/// the whole phase, named in the error, and no partial result is returned.
pub fn parse_command_files(files: &Vec<(String, String)>) -> (r: Result<
    Vec<GeneratedCommand>,
    GenError,
>)
    ensures
        r is Ok <==> (forall|i: int|
            0 <= i < files@.len() ==> #[trigger] fragment_gen(files@[i].1@) is Some),
        r matches Ok(v) ==> v@.len() == files@.len() && (forall|i: int|
            0 <= i < files@.len() ==> #[trigger] gen_matches(v@[i], files@[i].1@)),
        r matches Err(e) ==> e matches GenError::FragmentDecode { file } && (exists|i: int|
            0 <= i < files@.len() && #[trigger] fragment_gen(files@[i].1@) is None && file@
                == files@[i].0@),
{
    let mut out: Vec<GeneratedCommand> = Vec::new();
    let n = files.len();
    let mut i: usize = 0;
    while i < n
        invariant
            n == files@.len(),
            i <= n,
            out@.len() == i,
            forall|j: int| 0 <= j < i ==> #[trigger] fragment_gen(files@[j].1@) is Some,
            forall|j: int| 0 <= j < i ==> #[trigger] gen_matches(out@[j], files@[j].1@),
        decreases n - i,
    {
        let doc = match get_json_payload(files[i].1.as_str()) {
            Err(_) => {
                proof {
                    assert(fragment_gen(files@[i as int].1@) is None);
                }
                return Err(GenError::FragmentDecode { file: files[i].0.clone() });
            },
            Ok(d) => d,
        };
        let method_source = match rewrite_for_impl(doc.raw.as_str()) {
            None => {
                proof {
                    assert(fragment_gen(files@[i as int].1@) is None);
                }
                return Err(GenError::FragmentDecode { file: files[i].0.clone() });
            },
            Some(m) => m,
        };
        let marker = to_upper_camel(doc.name.as_str());
        let const_name = to_upper_snake(marker.as_str());
        out.push(GeneratedCommand { const_name, code: doc.code, marker, method_source });
        i = i + 1;
    }
    Ok(out)
}

/// The synthesized registry: the closed dispatch type's name, the shared
/// interface's name, and the commands whose markers are its variants, in
/// walk order.
#[derive(Debug)]
pub struct Registry {
    pub dispatch_name: String,
    pub interface_name: String,
    pub commands: Vec<GeneratedCommand>,
}

impl Registry {
    /// The variant list of the dispatch type: the marker identifiers in
    /// walk order.
    pub open spec fn markers(self) -> Seq<Seq<char>> {
        self.commands@.map_values(|c: GeneratedCommand| c.marker@)
    }

    /// Whether default construction of the dispatch type is defined: the
    /// default variant must be the marker named `Nope`, exactly. The phase
    /// never fabricates one; its absence surfaces downstream.
    pub open spec fn default_defined(self) -> bool {
        exists|i: int| 0 <= i < self.markers().len() && self.markers()[i] == nope_marker()
    }
}

/// Generate the registry from the walked fragment files: every fragment is
/// synthesized into a constant, a marker and an implementation, and the
/// markers become the dispatch type's variants; any undecodable fragment
/// aborts the whole phase with the offending file named.
pub fn wgse_command_trait_impl(
    dispatch_name: &str,
    interface_name: &str,
    files: &Vec<(String, String)>,
) -> (r: Result<Registry, GenError>)
    ensures
        r is Ok <==> (forall|i: int|
            0 <= i < files@.len() ==> #[trigger] fragment_gen(files@[i].1@) is Some),
        r matches Ok(reg) ==> reg.dispatch_name@ == dispatch_name@ && reg.interface_name@
            == interface_name@ && reg.commands@.len() == files@.len() && (forall|i: int|
            0 <= i < files@.len() ==> #[trigger] gen_matches(reg.commands@[i], files@[i].1@)),
        r matches Err(e) ==> e matches GenError::FragmentDecode { file } && (exists|i: int|
            0 <= i < files@.len() && #[trigger] fragment_gen(files@[i].1@) is None && file@
                == files@[i].0@),
{
    let commands = match parse_command_files(files) {
        Err(e) => {
            return Err(e);
        },
        Ok(v) => v,
    };
    Ok(
        Registry {
            dispatch_name: dispatch_name.to_owned(),
            interface_name: interface_name.to_owned(),
            commands,
        },
    )
}

/// A registry generated from exactly one fragment has exactly one variant,
/// and default construction is defined exactly when that variant is the
/// `Nope` marker.
pub proof fn lemma_single_variant(reg: Registry)
    requires
        reg.commands@.len() == 1,
    ensures
        reg.markers().len() == 1,
        reg.default_defined() <==> reg.markers()[0] == nope_marker(),
{
    if reg.markers()[0] == nope_marker() {
        assert(0 <= 0 < reg.markers().len() && reg.markers()[0] == nope_marker());
    }
}

/// The generation phase never fabricates a default variant: when no
/// fragment produced the `Nope` marker, default construction stays
/// undefined, observable downstream.
pub proof fn lemma_no_nope_no_default(reg: Registry)
    requires
        forall|i: int| 0 <= i < reg.markers().len() ==> reg.markers()[i] != nope_marker(),
    ensures
        !reg.default_defined(),
{
}

} // verus!
