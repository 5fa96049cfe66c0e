use meta_gen::casing::{to_snake, to_upper_camel, to_upper_snake};
use meta_gen::dirstore::DirStore;
use meta_gen::meta_collect::{
    check_function_interface, wgse_command_impl, AttrLit, CaptureError, MetaCollectArgs,
};
use meta_gen::meta_generate::{
    rewrite_for_impl, wgse_command_interface_impl, wgse_command_trait_impl, GenError,
};
use meta_gen::normalize::{canonical_text, preprocess_function_ast};
use meta_gen::sig::{render_decl, FnDecl, FnSig, Param, Vis};
use meta_gen::store::{get_json_payload, set_json_payload, StoreError};

fn param(name: &str, ty: &str) -> Param {
    Param { mutable: false, name: name.to_string(), ty: ty.to_string() }
}

fn interface_decl() -> FnDecl {
    FnDecl {
        attrs: vec![],
        vis: Vis::Inherited,
        name: "execute".to_string(),
        sig: FnSig {
            receiver: true,
            params: vec![param("arg", "Integer")],
            ret: Some("Result".to_string()),
        },
        body: String::new(),
    }
}

fn command_decl(fn_name: &str, arg_name: &str) -> FnDecl {
    FnDecl {
        attrs: vec![],
        vis: Vis::Public,
        name: fn_name.to_string(),
        sig: FnSig {
            receiver: false,
            params: vec![param(arg_name, "Integer")],
            ret: Some("Result".to_string()),
        },
        body: "Ok (())".to_string(),
    }
}

fn args(code: u8, name: &str) -> MetaCollectArgs {
    MetaCollectArgs { code, name: name.to_string() }
}

#[test]
fn canonical_text_has_expected_form() {
    let iface = interface_decl();
    let canon = canonical_text(&iface, false);
    assert_eq!(canon, "fn _ (& self , _ : Integer) -> Result");
}

#[test]
fn canonical_text_injects_receiver_for_commands() {
    let cmd = command_decl("execute_nope", "x");
    let canon = canonical_text(&cmd, true);
    assert_eq!(canon, "fn _ (& self , _ : Integer) -> Result");
}

#[test]
fn normalization_is_idempotent_on_text() {
    let mut d = command_decl("execute_echo", "value");
    d.attrs = vec!["inline".to_string()];
    let once = canonical_text(&d, true);
    preprocess_function_ast(&mut d, true);
    let twice = canonical_text(&d, true);
    assert_eq!(once, twice);
    assert_eq!(d.name, "_");
    assert!(d.attrs.is_empty());
    assert!(matches!(d.vis, Vis::Inherited));
    assert_eq!(d.sig.params[0].name, "_");
    assert_eq!(d.sig.params[0].ty, "Integer");
}

#[test]
fn capture_succeeds_whatever_the_names() {
    let record = wgse_command_interface_impl(&interface_decl());
    let a = wgse_command_impl(&args(1, "Alpha"), &command_decl("run_alpha", "count"), Some(&record));
    let b = wgse_command_impl(&args(2, "Beta"), &command_decl("do_beta", "x"), Some(&record));
    assert!(a.is_ok());
    assert!(b.is_ok());
}

#[test]
fn capture_persists_fragment_with_receiver_injected() {
    let record = wgse_command_interface_impl(&interface_decl());
    let cap = wgse_command_impl(&args(0, "Nope"), &command_decl("execute_nope", "x"), Some(&record))
        .unwrap();
    assert_eq!(cap.key, "nope");
    let doc = get_json_payload(&cap.text).unwrap();
    assert_eq!(doc.name, "Nope");
    assert_eq!(doc.code, 0);
    assert_eq!(doc.raw, "pub fn execute_nope (& self , x : Integer) -> Result { Ok (()) }");
}

#[test]
fn capture_rejects_wrong_return_type() {
    let record = wgse_command_interface_impl(&interface_decl());
    let mut cmd = command_decl("execute_bad", "x");
    cmd.sig.ret = Some("u32".to_string());
    match wgse_command_impl(&args(9, "Bad"), &cmd, Some(&record)) {
        Err(CaptureError::InterfaceMismatch { expect, found }) => {
            assert_eq!(expect, "fn _ (& self , _ : Integer) -> Result");
            assert_eq!(found, "fn _ (& self , _ : Integer) -> u32");
        },
        _ => panic!("expected an interface mismatch"),
    }
}

#[test]
fn capture_rejects_wrong_arity() {
    let record = wgse_command_interface_impl(&interface_decl());
    let mut cmd = command_decl("execute_bad", "x");
    cmd.sig.params.push(param("extra", "u8"));
    assert!(matches!(
        wgse_command_impl(&args(9, "Bad"), &cmd, Some(&record)),
        Err(CaptureError::InterfaceMismatch { .. })
    ));
}

#[test]
fn capture_requires_interface_record() {
    let r = check_function_interface(&command_decl("execute_nope", "x"), None);
    assert!(matches!(r, Err(CaptureError::MissingInterface(_))));
}

#[test]
fn capture_rejects_malformed_interface_record() {
    let bad = "not a document".to_string();
    let r = check_function_interface(&command_decl("execute_nope", "x"), Some(&bad));
    assert!(matches!(r, Err(CaptureError::Store(StoreError::MalformedDocument))));
}

#[test]
fn annotation_args_parse() {
    let good = vec![AttrLit::Int(3), AttrLit::Str("Echo".to_string())];
    let a = MetaCollectArgs::parse(&good).unwrap();
    assert_eq!(a.code, 3);
    assert_eq!(a.name, "Echo");
}

#[test]
fn annotation_args_rejected() {
    let too_few = vec![AttrLit::Int(3)];
    assert!(matches!(MetaCollectArgs::parse(&too_few), Err(CaptureError::MalformedArgs)));
    let swapped = vec![AttrLit::Str("Echo".to_string()), AttrLit::Int(3)];
    assert!(matches!(MetaCollectArgs::parse(&swapped), Err(CaptureError::MalformedArgs)));
    let too_big = vec![AttrLit::Int(256), AttrLit::Str("Echo".to_string())];
    assert!(matches!(MetaCollectArgs::parse(&too_big), Err(CaptureError::MalformedArgs)));
    let odd = vec![AttrLit::Other, AttrLit::Str("Echo".to_string())];
    assert!(matches!(MetaCollectArgs::parse(&odd), Err(CaptureError::MalformedArgs)));
}

#[test]
fn document_round_trip_keeps_tricky_text() {
    let raw = "fn f() { let s = \"a{b}\\\"c\"; }\n\tend";
    let text = set_json_payload("My Command", 255, raw);
    let doc = get_json_payload(&text).unwrap();
    assert_eq!(doc.name, "My Command");
    assert_eq!(doc.code, 255);
    assert_eq!(doc.raw, raw);
}

#[test]
fn document_rejects_bad_base64() {
    let text = "{\"code\":1,\"name\":\"X\",\"raw\":\"@@@\"}";
    assert!(matches!(get_json_payload(text), Err(StoreError::InvalidRaw)));
}

#[test]
fn document_decodes_base64_raw() {
    let text = "{\"code\":1,\"name\":\"X\",\"raw\":\"aGk=\"}";
    let doc = get_json_payload(text).unwrap();
    assert_eq!(doc.raw, "hi");
}

#[test]
fn store_put_get_round_trip() {
    let mut store = DirStore::new();
    let text = set_json_payload("Nope", 0, "body { \"q\" }");
    store.put("nope.json", text.clone());
    let back = store.get("nope.json").unwrap();
    let doc = get_json_payload(&back).unwrap();
    assert_eq!(doc.raw, "body { \"q\" }");
    assert!(store.get("other.json").is_none());
}

#[test]
fn colliding_keys_overwrite_last_write_wins() {
    assert_eq!(to_snake("Echo"), "echo");
    assert_eq!(to_snake("echo"), "echo");
    let mut store = DirStore::new();
    let first = set_json_payload("Echo", 1, "first body");
    let second = set_json_payload("echo", 2, "second body");
    store.put(&to_snake("Echo"), first);
    store.put(&to_snake("echo"), second);
    assert_eq!(store.len(), 1);
    let doc = get_json_payload(&store.get("echo").unwrap()).unwrap();
    assert_eq!(doc.code, 2);
    assert_eq!(doc.raw, "second body");
}

#[test]
fn derived_identifiers_change_case() {
    assert_eq!(to_upper_camel("nope"), "Nope");
    assert_eq!(to_upper_camel("my command"), "MyCommand");
    assert_eq!(to_upper_snake("MyCommand"), "MY_COMMAND");
}

#[test]
fn rewrite_renames_and_drops_visibility() {
    let raw = "#[inline] pub fn execute_nope (& self , x : Integer) -> Result { Ok (()) }";
    let out = rewrite_for_impl(raw).unwrap();
    assert_eq!(out, "#[inline] fn execute (& self , x : Integer) -> Result { Ok (()) }");
    assert!(rewrite_for_impl("garbage").is_none());
}

#[test]
fn registry_from_single_nope_fragment() {
    let record = wgse_command_interface_impl(&interface_decl());
    let cap = wgse_command_impl(&args(0, "Nope"), &command_decl("execute_nope", "x"), Some(&record))
        .unwrap();
    let files = vec![("nope.json".to_string(), cap.text)];
    let reg = wgse_command_trait_impl("WgseCommand", "WgseCommandExecute", &files).unwrap();
    assert_eq!(reg.dispatch_name, "WgseCommand");
    assert_eq!(reg.interface_name, "WgseCommandExecute");
    assert_eq!(reg.commands.len(), 1);
    assert_eq!(reg.commands[0].marker, "Nope");
    assert_eq!(reg.commands[0].const_name, "NOPE");
    assert_eq!(reg.commands[0].code, 0);
    assert_eq!(
        reg.commands[0].method_source,
        "fn execute (& self , x : Integer) -> Result { Ok (()) }"
    );
}

#[test]
fn registry_without_nope_has_no_nope_variant() {
    let record = wgse_command_interface_impl(&interface_decl());
    let cap = wgse_command_impl(&args(1, "Echo"), &command_decl("execute_echo", "v"), Some(&record))
        .unwrap();
    let files = vec![("echo.json".to_string(), cap.text)];
    let reg = wgse_command_trait_impl("WgseCommand", "WgseCommandExecute", &files).unwrap();
    assert_eq!(reg.commands.len(), 1);
    assert!(reg.commands.iter().all(|c| c.marker != "Nope"));
}

#[test]
fn registry_aborts_on_undecodable_fragment() {
    let record = wgse_command_interface_impl(&interface_decl());
    let cap = wgse_command_impl(&args(0, "Nope"), &command_decl("execute_nope", "x"), Some(&record))
        .unwrap();
    let files = vec![
        ("nope.json".to_string(), cap.text),
        ("bad.json".to_string(), "{ broken".to_string()),
    ];
    match wgse_command_trait_impl("WgseCommand", "WgseCommandExecute", &files) {
        Err(GenError::FragmentDecode { file }) => assert_eq!(file, "bad.json"),
        _ => panic!("expected the generation phase to abort"),
    }
}

#[test]
fn full_pipeline_nope_scenario() {
    let record = wgse_command_interface_impl(&interface_decl());
    let mut store = DirStore::new();
    let cap = wgse_command_impl(&args(0, "Nope"), &command_decl("execute_nope", "x"), Some(&record))
        .unwrap();
    store.put(&cap.key, cap.text);
    let mut files: Vec<(String, String)> = Vec::new();
    for i in 0..store.len() {
        let e = store.at(i);
        files.push((e.0.clone(), e.1.clone()));
    }
    let reg = wgse_command_trait_impl("WgseCommand", "WgseCommandExecute", &files).unwrap();
    assert_eq!(reg.commands.len(), 1);
    assert_eq!(reg.commands[0].marker, "Nope");
    assert!(reg.commands[0].method_source.contains("Ok (())"));
}

#[test]
fn mutable_parameter_qualifier_is_preserved() {
    let mut cmd = command_decl("execute_m", "x");
    cmd.sig.params[0].mutable = true;
    let canon = canonical_text(&cmd, true);
    assert_eq!(canon, "fn _ (& self , mut _ : Integer) -> Result");
    let rendered = render_decl(&cmd, true);
    assert_eq!(rendered, "pub fn execute_m (& self , mut x : Integer) -> Result { Ok (()) }");
}

#[test]
fn reader_accepts_any_member_order_and_whitespace() {
    let text = " { \"name\" : \"X\" , \"raw\" : \"aGk=\" , \"code\" : 7 } ";
    let doc = get_json_payload(text).unwrap();
    assert_eq!(doc.name, "X");
    assert_eq!(doc.code, 7);
    assert_eq!(doc.raw, "hi");
}

#[test]
fn reader_accepts_full_json_escape_set() {
    let text = "{\"code\":1,\"name\":\"a\\/b\\u0041\\b\\f\",\"raw\":\"aGk=\"}";
    let doc = get_json_payload(text).unwrap();
    assert_eq!(doc.name, "a/bA\u{0008}\u{000c}");
}

#[test]
fn reader_rejects_duplicate_members() {
    let text = "{\"code\":1,\"code\":2,\"raw\":\"aGk=\"}";
    assert!(matches!(get_json_payload(text), Err(StoreError::MalformedDocument)));
}

#[test]
fn rewrite_rejects_truncated_declarations() {
    assert!(rewrite_for_impl("pub fn f (").is_none());
    assert!(rewrite_for_impl("fn f (& self) { ( }").is_none());
}

#[test]
fn rewrite_accepts_brackets_inside_string_literals() {
    let raw = "fn f (& self) -> Result { let s = \"(\" ; Ok (()) }";
    let out = rewrite_for_impl(raw).unwrap();
    assert_eq!(out, "fn execute (& self) -> Result { let s = \"(\" ; Ok (()) }");
}
