use keyword_extraction_pipeline::resources::Resources;
use keyword_extraction_pipeline::stages::definition::{extract_definitions, DefinitionRecord};
use keyword_extraction_pipeline::types::{Kind, Origin};

fn run(text: &str) -> Vec<DefinitionRecord> {
    extract_definitions(text, &Resources::default())
}

fn originals(text: &str) -> Vec<String> {
    run(text).into_iter().map(|k| k.original_keyword).collect()
}

fn collapse(s: &str) -> String {
    s.split_whitespace().collect::<Vec<_>>().join(" ")
}

#[test]
fn a_definition_yields_both_the_abbreviation_and_its_expansion() {
    let out = originals("The batch was released under Standard Operating Procedure (SOP) 114.");
    assert!(out.contains(&"SOP".to_string()), "got {out:?}");
    assert!(
        out.contains(&"Standard Operating Procedure".to_string()),
        "the expansion is the other half of the evidence: {out:?}"
    );
}

#[test]
fn both_halves_carry_the_canonical_expansion() {
    for k in run("We used Standard Operating Procedure (SOP) throughout.") {
        assert_eq!(k.expansion, "Standard Operating Procedure", "{k:?}");
        assert_eq!(k.origin, Origin::Definition);
        assert_eq!(k.kind, Kind::Technical);
    }
}

#[test]
fn a_definition_split_by_a_line_wrap_is_still_found() {
    // Wrapped prose breaks mid-clause. Treating that break as a sentence boundary
    // would lose most real definitions in a PDF.
    let out = originals("The instrument uses high performance liquid\nchromatography (HPLC) daily.");
    assert!(out.contains(&"HPLC".to_string()), "lost to a line wrap: {out:?}");
    let hplc = run("The instrument uses high performance liquid\nchromatography (HPLC) daily.")
        .into_iter()
        .find(|k| k.original_keyword == "HPLC")
        .expect("HPLC missing");
    assert_eq!(hplc.expansion, "high performance liquid chromatography", "expansion kept a line wrap");
}

#[test]
fn a_wrapped_expansion_normalises_to_one_line_while_its_surface_stays_faithful() {
    let text = "It uses high performance liquid\nchromatography (HPLC) daily.";
    let long = run(text)
        .into_iter()
        .find(|k| k.normalised.contains("chromatography") && k.original_keyword != "HPLC")
        .expect("expansion missing");
    assert_eq!(long.normalised, "high performance liquid chromatography");
    assert!(long.original_keyword.contains('\n'), "surface should mirror the text");
    for span in &long.offsets {
        assert_eq!(collapse(&text[span.clone()].to_lowercase()), long.normalised);
    }
}

#[test]
fn a_table_row_is_not_healed_into_the_row_above_it() {
    let out = originals("Sample Operating Pressure\nDS-2291 reviewed it (SOP).");
    assert!(
        !out.iter().any(|s| s.contains("Sample Operating Pressure")),
        "merged across a row boundary: {out:?}"
    );
}

#[test]
fn the_window_does_not_reach_back_across_a_sentence_boundary() {
    let out = originals("Sales Order Processing was slow. The team reviewed it (SOP).");
    assert!(
        !out.iter().any(|s| s.contains("Sales Order Processing")),
        "the window ran past a full stop: {out:?}"
    );
}

#[test]
fn an_aside_is_not_a_definition() {
    for aside in [
        "The yield is plotted (see Fig. 4) for each run.",
        "The column was replaced (2024-03-11) before the run.",
        "The release was tagged (v2.14.3) that morning.",
    ] {
        assert!(originals(aside).is_empty(), "treated an aside as a definition: {aside}");
    }
}

#[test]
fn a_restatement_is_not_an_expansion() {
    assert!(originals("The report on SOP (SOP) was filed.").is_empty());
}

#[test]
fn the_first_letter_must_begin_a_word() {
    let out = originals("Attendees ran workshops on process (SOP) design.");
    assert!(!out.iter().any(|s| s.contains("workshops")), "matched mid-word: {out:?}");
}

#[test]
fn an_expansion_inside_the_parentheses_is_found_too() {
    let out = originals("The instrument uses HPLC (high performance liquid chromatography).");
    assert!(out.contains(&"HPLC".to_string()), "got {out:?}");
    assert!(out.contains(&"high performance liquid chromatography".to_string()), "got {out:?}");
}

#[test]
fn definition_every_offset_resolves_to_the_normalised_form() {
    let text = "Released under Standard Operating Procedure (SOP) today.";
    for k in run(text) {
        for span in &k.offsets {
            assert_eq!(collapse(&text[span.clone()].to_lowercase()), k.normalised);
        }
    }
}

#[test]
fn a_term_defined_twice_is_one_record_with_both_sites() {
    let out = run("Standard Operating Procedure (SOP) applies. \
         Standard Operating Procedure (SOP) was revised.");
    let sop = out.iter().find(|k| k.original_keyword == "SOP").expect("SOP missing");
    assert_eq!(sop.offsets.len(), 2, "sites were not merged: {sop:?}");
}

#[test]
fn definition_output_is_deterministic_including_tie_order() {
    let text = "Standard Operating Procedure (SOP) and Quality Control Unit (QCU) apply.";
    assert_eq!(run(text), run(text));
}

#[test]
fn records_come_in_the_order_their_forms_were_first_defined() {
    let out = originals("Quality Control Unit (QCU) and Standard Operating Procedure (SOP) apply.");
    assert_eq!(
        out,
        vec!["QCU", "Quality Control Unit", "SOP", "Standard Operating Procedure"],
        "order changed: {out:?}"
    );
}
