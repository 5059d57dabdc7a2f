use selfnn::loss::{BCELoss, CrossEntropyLoss, MSELoss};

#[test]
fn loss_constructors() {
    assert_eq!(MSELoss::new(), MSELoss);
    assert_eq!(BCELoss::new(), BCELoss);
    assert_eq!(CrossEntropyLoss::new(), CrossEntropyLoss);
    assert_eq!(MSELoss::new(), MSELoss::default());
}
