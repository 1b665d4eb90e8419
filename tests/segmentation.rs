use chawuek::segment::{above_threshold, decode, segment, text_chars};
use chawuek::ChawuekError;

fn bits(ps: &[f32]) -> Vec<u32> {
    ps.iter().map(|p| p.to_bits()).collect()
}

#[test]
fn scenario_six_characters() {
    let chars = text_chars("กินข้า");
    assert_eq!(chars.len(), 6);
    // boundaries before positions 1 and 3
    let probs = bits(&[0.0, 0.9, 0.1, 0.9, 0.1, 0.1]);
    assert_eq!(decode(&chars, &probs), vec!["ก", "ิน", "ข้า"]);
}

#[test]
fn scenario_through_segment() {
    let chars = text_chars("กินข้า");
    // boundaries before positions 2 and 5
    let probs = bits(&[0.7, 0.1, 0.9, 0.1, 0.1, 0.9]);
    assert_eq!(
        segment(&chars, Some(probs)),
        Ok(vec!["กิ".to_string(), "นข้".to_string(), "า".to_string()])
    );
}

#[test]
fn probability_equal_to_threshold_does_not_split() {
    let chars = text_chars("abc");
    assert_eq!(decode(&chars, &bits(&[0.0, 0.5, 0.5])), vec!["abc"]);
    let above = f32::from_bits(0.5f32.to_bits() + 1);
    assert_eq!(decode(&chars, &bits(&[0.0, above, 0.5])), vec!["a", "bc"]);
}

#[test]
fn threshold_decision() {
    assert!(!above_threshold(0.5f32.to_bits()));
    assert!(above_threshold(0.51f32.to_bits()));
    assert!(above_threshold(1.0f32.to_bits()));
    assert!(above_threshold(f32::INFINITY.to_bits()));
    assert!(!above_threshold(0.49f32.to_bits()));
    assert!(!above_threshold(0.0f32.to_bits()));
    assert!(!above_threshold((-0.0f32).to_bits()));
    assert!(!above_threshold((-0.9f32).to_bits()));
    assert!(!above_threshold(f32::NAN.to_bits()));
    assert!(!above_threshold(f32::NEG_INFINITY.to_bits()));
}

#[test]
fn first_position_never_splits() {
    let chars = text_chars("ab");
    assert_eq!(decode(&chars, &bits(&[1.0, 0.0])), vec!["ab"]);
    assert_eq!(decode(&chars, &bits(&[0.0, 0.0])), vec!["ab"]);
}

#[test]
fn single_character_is_one_token() {
    let chars = text_chars("ก");
    assert_eq!(decode(&chars, &bits(&[0.99])), vec!["ก"]);
    assert_eq!(decode(&chars, &bits(&[0.01])), vec!["ก"]);
}

#[test]
fn every_position_splits() {
    let chars = text_chars("abcd");
    assert_eq!(decode(&chars, &bits(&[0.9, 0.9, 0.9, 0.9])), vec!["a", "b", "c", "d"]);
}

#[test]
fn tokens_concatenate_to_input() {
    let text = "ฉันกินข้าวที่บ้าน, แล้วไปโรงเรียน!";
    let chars = text_chars(text);
    let probs: Vec<u32> = (0..chars.len())
        .map(|i| if i % 3 == 0 { 0.8f32 } else { 0.2f32 }.to_bits())
        .collect();
    let toks = decode(&chars, &probs);
    assert_eq!(toks.concat(), text);
    assert!(toks.iter().all(|t| !t.is_empty()));
    let splits = (1..chars.len()).filter(|i| i % 3 == 0).count();
    assert_eq!(toks.len(), splits + 1);
}

#[test]
fn decoding_is_repeatable() {
    let chars = text_chars("กินข้าว");
    let probs = bits(&[0.1, 0.6, 0.2, 0.7, 0.3, 0.1, 0.5]);
    assert_eq!(decode(&chars, &probs), decode(&chars, &probs));
}

#[test]
fn missing_classifier_output_is_an_error() {
    let chars = text_chars("ab");
    assert_eq!(segment(&chars, None), Err(ChawuekError::ModuleReturnedAnInvalidValue));
}

#[test]
fn wrong_number_of_scores_is_an_error() {
    let chars = text_chars("abc");
    assert_eq!(
        segment(&chars, Some(bits(&[0.1, 0.9]))),
        Err(ChawuekError::ModuleReturnedAnInvalidValue)
    );
    assert_eq!(
        segment(&chars, Some(bits(&[0.1, 0.9, 0.1, 0.1]))),
        Err(ChawuekError::ModuleReturnedAnInvalidValue)
    );
}

#[test]
fn empty_text_has_no_tokens() {
    let chars = text_chars("");
    assert!(chars.is_empty());
    assert_eq!(segment(&chars, Some(Vec::new())), Ok(Vec::new()));
}

#[test]
fn text_is_split_into_code_points() {
    assert_eq!(text_chars("กิa!"), vec!['ก', 'ิ', 'a', '!']);
}
