use neural_net_rs::{BytePairEncoder, Encoding, TokenError};

#[test]
fn test_bpe_string() -> Result<(), TokenError> {
    let input = "hello world, we are programming!";
    let mut encoder = BytePairEncoder::default();
    let output = encoder.from_utf8(input)?;
    let expected = vec![
        104, 101, 108, 108, 111, 32, 119, 111, 114, 108, 100, 44, 32, 119, 101, 32, 97, 114,
        101, 32, 112, 114, 111, 103, 114, 97, 109, 109, 105, 110, 103, 33,
    ];

    assert_eq!(output, expected);

    Ok(())
}

#[test]
fn test_bpe_encode() -> Result<(), TokenError> {
    let input = "ababbcbc";
    let mut encoder = BytePairEncoder::default();
    encoder.train(input.to_string(), Encoding::Utf8, None)?;
    let output = encoder.encode(input, Encoding::Utf8)?;
    let expected = vec![257, 257, 256, 256];
    println!("encoder: {:?}", encoder);
    println!("encoded string: {:?}", output);

    assert_eq!(output, expected);

    Ok(())
}

#[test]
fn test_bpe_decode() -> Result<(), TokenError> {
    let input = "abbbcbcd";
    let mut encoder = BytePairEncoder::default();
    encoder.train(input.to_string(), Encoding::Utf8, None)?;
    let encode_once = encoder.from_utf8(input)?;
    println!("initial encoding: {:?}", encode_once);
    let encoded = encoder.encode(input, Encoding::Utf8)?;
    println!("final encoding: {:?}", &encoded);
    let decoded = encoder.decode(encoded)?;
    assert_eq!(decoded, input);
    Ok(())
}

#[test]
fn test_bpe_to_utf8() -> Result<(), TokenError> {
    let input = vec![
        104, 101, 108, 108, 111, 32, 119, 111, 114, 108, 100, 44, 32, 119, 101, 32, 97, 114,
        101, 32, 112, 114, 111, 103, 114, 97, 109, 109, 105, 110, 103, 33,
    ];
    let mut encoder = BytePairEncoder::default();
    let expected = "hello world, we are programming!".to_string();
    encoder.train(expected.to_string(), Encoding::Utf8, None)?;

    let _ = encoder.encode(&expected, Encoding::Utf8); // building vocab
    let output = encoder.to_utf8(input)?;

    assert_eq!(output, expected);

    Ok(())
}

#[test]
fn test_transformer_flow() -> Result<(), TokenError> {
    let input = "aabbabax";
    println!("input string: {input}");
    let mut encoder = BytePairEncoder::default();
    encoder.train(input.to_string(), Encoding::Utf8, None)?;

    let encoded = encoder.encode(input, Encoding::Utf8)?;

    println!("{:?}", encoder);
    println!("last encoded string: {:?}", encoded);

    let decoded = encoder.decode(encoded)?;
    println!("decoded string: {:?}", decoded);
    assert_eq!(input, decoded);

    Ok(())
}

// A token that was never minted cannot be turned back into text.
#[test]
fn test_to_utf8_unknown_token() {
    let encoder = BytePairEncoder::default();
    let result = encoder.to_utf8(vec![999]);
    assert_eq!(result, Err(TokenError::InvalidToken(999)));
}

// Training stops at the requested vocabulary budget.
#[test]
fn test_train_respects_budget() -> Result<(), TokenError> {
    let input = "ababbcbc";
    let mut encoder = BytePairEncoder::default();
    // budget of zero: no merges can be minted at all
    encoder.train(input.to_string(), Encoding::Utf8, Some(0))?;
    let output = encoder.encode(input, Encoding::Utf8)?;
    let plain: Vec<usize> = input.bytes().map(|b| b as usize).collect();
    assert_eq!(output, plain);
    Ok(())
}

// Encoding and decoding are inverse on the training text.
#[test]
fn test_round_trip_longer_text() -> Result<(), TokenError> {
    let input = "the quick brown fox jumps over the lazy dog; the dog sleeps";
    let mut encoder = BytePairEncoder::default();
    encoder.train(input.to_string(), Encoding::Utf8, None)?;
    let encoded = encoder.encode(input, Encoding::Utf8)?;
    assert!(encoded.len() < input.len());
    let decoded = encoder.decode(encoded)?;
    assert_eq!(decoded, input);
    Ok(())
}
