use quipu::pack::Manifest;
use quipu::pack_restore::{
    check_replacement, hash_mismatch_error, require_format, Verb, FORMAT_FROZEN, FORMAT_FULL,
    FORMAT_FULL_TEXT, FORMAT_PUBLISHED, FORMAT_TURTLE,
};
use quipu::value::Error;

fn manifest(format: &str) -> Manifest {
    Manifest {
        pack_format: format.to_string(),
        name: "restore".into(),
        version: "0.1.0".into(),
        term_space: 0,
        content_hash: "sha256:00".into(),
        created_at: "2026-09-13T00:00:00Z".into(),
        source_graph: "urn:g:restore".into(),
        producer: "{}".into(),
        counts: "{}".into(),
    }
}

#[test]
fn unpack_refuses_a_full_pack_and_names_restore() {
    let error = require_format(&manifest(FORMAT_FULL), Verb::Unpack)
        .expect_err("unpack must refuse a full pack");
    let text = error.message();
    assert!(text.contains("quipu restore"), "{text}");
    assert!(text.contains("intact"), "{text}");
    assert!(matches!(error, Error::PolicyDenied(_)));
}

#[test]
fn restore_refuses_a_published_pack_and_names_unpack() {
    let error = require_format(&manifest(FORMAT_PUBLISHED), Verb::Restore)
        .expect_err("restore must refuse a published pack");
    assert!(error.message().contains("quipu unpack"), "{}", error.message());
}

#[test]
fn an_unknown_pack_format_is_refused_by_both_verbs() {
    for verb in [Verb::Unpack, Verb::Restore] {
        let err = require_format(&manifest("quipu-pack-full/99"), verb)
            .expect_err("an unrecognised format must be refused");
        let text = err.message();
        assert!(text.contains("quipu-pack-full/99"), "{text}");
        assert!(matches!(err, Error::InvalidValue(_)));
        assert!(text.starts_with("pack_format \"quipu-pack-full/99\" is not a format"), "{text}");
    }
}

#[test]
fn an_export_only_format_is_refused_and_says_nothing_reads_it() {
    let text = require_format(&manifest(FORMAT_TURTLE), Verb::Unpack)
        .expect_err("an interop bundle is export-only")
        .message();
    assert!(text.contains("Nothing loads it back"), "{text}");
}

#[test]
fn a_frozen_archive_is_pointed_at_attach_not_at_the_other_load_verb() {
    let text = require_format(&manifest(FORMAT_FROZEN), Verb::Restore)
        .expect_err("a frozen archive graph is composed, not restored")
        .message();
    assert!(text.contains("attach"), "{text}");
}

#[test]
fn each_verb_admits_its_own_formats() {
    assert!(require_format(&manifest(FORMAT_PUBLISHED), Verb::Unpack).is_ok());
    assert!(require_format(&manifest(FORMAT_FULL), Verb::Restore).is_ok());
    assert!(require_format(&manifest(FORMAT_FULL_TEXT), Verb::Restore).is_ok());
    assert_eq!(Verb::Unpack.format(), "1");
    assert_eq!(Verb::Restore.format(), "quipu-pack-full/1");
    assert_eq!(Verb::Unpack.command(), "quipu unpack");
    assert_eq!(Verb::Restore.command(), "quipu restore");
}

#[test]
fn the_wrong_verb_message_is_exact() {
    let err = require_format(&manifest(FORMAT_FULL), Verb::Unpack).unwrap_err();
    assert_eq!(
        err.message(),
        "quipu unpack refuses this pack: it is pack_format \"quipu-pack-full/1\", and quipu unpack reads \"1\". \
It is read by `quipu restore <pack>`, which REPLACES the destination store with it. \
The pack itself is intact \u{2014} this is the wrong verb for it, not a damaged artifact (aegis-9f899e)."
    );
}

#[test]
fn an_unknown_format_with_a_quote_is_quoted_escaped() {
    let err = require_format(&manifest("a\"b"), Verb::Unpack).unwrap_err();
    assert!(err.message().starts_with("pack_format \"a\\\"b\" is not"), "{}", err.message());
}

#[test]
fn a_populated_destination_is_refused_unless_forced() {
    let err = check_replacement("/tmp/dest.db", 3, false).unwrap_err();
    assert!(err.message().contains("refuses to replace /tmp/dest.db: it holds 3 live fact(s)"), "{}", err.message());
    assert!(check_replacement("/tmp/dest.db", 3, true).is_ok());
    assert!(check_replacement("/tmp/dest.db", 0, false).is_ok());
    let h = hash_mismatch_error("sha256:aa", "sha256:bb");
    assert!(h.message().starts_with("pack: HASH MISMATCH: manifest sha256:aa, recomputed sha256:bb."));
}
