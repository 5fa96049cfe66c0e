//! The command capture phase: parse the `(code, name)` annotation
//! arguments, check the implementation's shape against the recorded
//! canonical interface, and on success serialize the fragment document
//! (under its snake-case store key) with the receiver injected into the
//! original declaration, so the generation phase gets runnable code.

use vstd::prelude::*;

use crate::casing::{snake_of, to_snake};
use crate::normalize::{canonical_text, canonical_text_of};
use crate::sig::{decl_text, render_decl, with_receiver, FnDecl};
use crate::store::{
    b64_of, decoded_fragment, decoded_interface, fragment_text, get_interface_payload,
    set_json_payload, StoreError,
};
use crate::InvalidInterfaceError;

verus! {

/// A literal standing in the annotation's argument position.
#[derive(Debug)]
pub enum AttrLit {
    Int(u64),
    Str(String),
    Other,
}

/// The parsed `(code, name)` annotation arguments of one command.
#[derive(Debug)]
pub struct MetaCollectArgs {
    pub code: u8,
    pub name: String,
}

/// Whether an argument list is the expected `(code, name)` pair: exactly two
/// literals, an integer that fits the 8-bit code range, and a string.
pub open spec fn args_ok(s: Seq<AttrLit>) -> bool {
    s.len() == 2 && s[0] is Int && s[0]->Int_0 <= 255 && s[1] is Str
}

/// A failure of the command capture phase.
#[derive(Debug)]
pub enum CaptureError {
    /// The annotation's arguments are not a `(code, name)` pair.
    MalformedArgs,
    /// No interface record exists: the interface-capture phase has not run.
    MissingInterface(InvalidInterfaceError),
    /// The interface record exists but cannot be decoded.
    Store(StoreError),
    /// The command's canonical signature text differs from the recorded
    /// canonical interface text; both forms are reported for diagnosis.
    InterfaceMismatch { expect: String, found: String },
}

impl MetaCollectArgs {
    /// Parse the annotation arguments: succeeds exactly on a `(code, name)`
    /// pair, yielding the code and the display name; anything else is a
    /// malformed-arguments failure.
    pub fn parse(input: &Vec<AttrLit>) -> (r: Result<MetaCollectArgs, CaptureError>)
        ensures
            r is Ok <==> args_ok(input@),
            r matches Ok(a) ==> a.code as u64 == input@[0]->Int_0 && a.name@ == input@[1]->Str_0@,
            r is Err ==> r->Err_0 is MalformedArgs,
    {
        if input.len() == 2 {
            let code: u64 = match &input[0] {
                AttrLit::Int(c) => *c,
                _ => {
                    return Err(CaptureError::MalformedArgs);
                },
            };
            let name: &String = match &input[1] {
                AttrLit::Str(s) => s,
                _ => {
                    return Err(CaptureError::MalformedArgs);
                },
            };
            if code <= 255 {
                Ok(MetaCollectArgs { code: code as u8, name: name.clone() })
            } else {
                Err(CaptureError::MalformedArgs)
            }
        } else {
            Err(CaptureError::MalformedArgs)
        }
    }
}

/// Check a command implementation against the captured interface record:
/// after identifier erasure and receiver injection, its canonical signature
/// text must be byte-identical to the recorded canonical interface text.
/// `interface_record` is the interface record document's text, or `None`
/// when no record exists.
pub fn check_function_interface(decl: &FnDecl, interface_record: Option<&String>) -> (r: Result<
    (),
    CaptureError,
>)
    ensures
        r is Ok <==> (interface_record matches Some(t) && decoded_interface(t@)
            == Some(canonical_text_of(decl@, true))),
        r matches Err(e) ==> match e {
            CaptureError::MissingInterface(_) => interface_record is None,
            CaptureError::Store(_) => interface_record matches Some(t) && decoded_interface(t@)
                is None,
            CaptureError::InterfaceMismatch { expect, found } => interface_record matches Some(t)
                && decoded_interface(t@) == Some(expect@) && found@ == canonical_text_of(
                decl@,
                true,
            ) && expect@ != found@,
            _ => false,
        },
{
    let record = match interface_record {
        None => {
            return Err(
                CaptureError::MissingInterface(
                    InvalidInterfaceError::new(
                        "no interface signature found. run the interface-capture phase first.",
                    ),
                ),
            );
        },
        Some(t) => t,
    };
    let expect = match get_interface_payload(record.as_str()) {
        Err(e) => {
            return Err(CaptureError::Store(e));
        },
        Ok(raw) => raw,
    };
    let found = canonical_text(decl, true);
    if expect.eq(&found) {
        Ok(())
    } else {
        Err(CaptureError::InterfaceMismatch { expect, found })
    }
}

/// The capture result: the store key (the snake-case display name) and the
/// fragment document text to persist under it.
#[derive(Debug)]
pub struct CommandCapture {
    pub key: String,
    pub text: String,
}

/// Capture one command. The shape check succeeds exactly when the recorded
/// interface decodes to the command's canonical (receiver-injected)
/// signature text; then the fragment document carries the display name, the
/// code, and the original declaration's source text with the receiver
/// injected, keyed by the snake-case name.
pub fn wgse_command_impl(
    args: &MetaCollectArgs,
    decl: &FnDecl,
    interface_record: Option<&String>,
) -> (r: Result<CommandCapture, CaptureError>)
    ensures
        r is Ok <==> (interface_record matches Some(t) && decoded_interface(t@)
            == Some(canonical_text_of(decl@, true))),
        r matches Ok(c) ==> c.key@ == snake_of(args.name@) && c.text@ == fragment_text(
            args.name@,
            args.code,
            b64_of(decl_text(with_receiver(decl@, true))),
        ) && decoded_fragment(c.text@) == Some(
            (args.name@, args.code, decl_text(with_receiver(decl@, true))),
        ),
        r matches Err(e) ==> match e {
            CaptureError::MissingInterface(_) => interface_record is None,
            CaptureError::Store(_) => interface_record matches Some(t) && decoded_interface(t@)
                is None,
            CaptureError::InterfaceMismatch { expect, found } => interface_record matches Some(t)
                && decoded_interface(t@) == Some(expect@) && found@ == canonical_text_of(
                decl@,
                true,
            ) && expect@ != found@,
            _ => false,
        },
{
    match check_function_interface(decl, interface_record) {
        Err(e) => Err(e),
        Ok(()) => {
            let key = to_snake(args.name.as_str());
            let injected = render_decl(decl, true);
            let text = set_json_payload(args.name.as_str(), args.code, injected.as_str());
            Ok(CommandCapture { key, text })
        },
    }
}

} // verus!
