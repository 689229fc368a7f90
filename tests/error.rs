use linfit::TrainingError;

#[test]
fn messages_name_the_line() {
    assert_eq!(TrainingError::NotEnoughValues(1).message(), "Not enough input parameters on line 1");
    assert_eq!(TrainingError::InvalidNumber(1207).message(), "Invalid number on line 1207");
    assert_eq!(TrainingError::NotEnoughValues(-30).message(), "Not enough input parameters on line -30");
    assert_eq!(
        TrainingError::InvalidNumber(isize::MIN).message(),
        format!("Invalid number on line {}", isize::MIN)
    );
}

#[test]
fn messages_of_other_errors() {
    assert_eq!(TrainingError::AlphaTooLarge.message(), "Alpha too large");
    assert_eq!(TrainingError::NoValues.message(), "No training values");
    assert_eq!(TrainingError::AlphaExhausted.message(), "No learning rate converged");
}
