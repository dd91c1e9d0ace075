use ship_cache::error::{Error, StrErr};
use ship_cache::model::{CacheKey, Model, RelativePostion};
use ship_cache::order::{compare, same, Order};

#[test]
fn side_of_the_waterline() {
    assert!(RelativePostion::Above.holds(&1.5, &1.0));
    assert!(!RelativePostion::Above.holds(&1.0, &1.0));
    assert!(!RelativePostion::Above.holds(&0.5, &1.0));
    assert!(RelativePostion::Under.holds(&0.5, &1.0));
    assert!(!RelativePostion::Under.holds(&1.0, &1.0));
    assert!(!RelativePostion::Under.holds(&1.5, &1.0));
    assert!(!RelativePostion::Above.holds(&f64::NAN, &1.0));
    assert!(!RelativePostion::Under.holds(&1.0, &f64::NAN));
}

#[test]
fn requested_caches() {
    let key = CacheKey::FloatingPostion;
    assert!(key.is_requested(&[]));
    assert!(key.is_requested(&[CacheKey::FloatingPostion]));
    assert!(key.is_requested(&[CacheKey::FloatingPostion, CacheKey::FloatingPostion]));
}

#[test]
fn model_is_created() {
    let _model: Model = Model::new();
}

#[test]
fn message_errors() {
    let owned = StrErr::from(format!("separate error message with param: {}", 0));
    assert_eq!(owned.message(), "separate error message with param: 0");
    let literal = StrErr::from("inline error message as string literal");
    assert_eq!(literal.message(), "inline error message as string literal");
}

#[test]
fn relations_of_scalars() {
    assert_eq!(compare(&1, &2), Some(Order::Less));
    assert_eq!(compare(&2, &2), Some(Order::Equal));
    assert_eq!(compare(&3, &2), Some(Order::Greater));
    assert_eq!(compare(&f64::NAN, &2.0), None);
    assert!(same(None, None));
    assert!(same(Some(Order::Less), Some(Order::Less)));
    assert!(!same(Some(Order::Less), Some(Order::Greater)));
    assert!(!same(Some(Order::Equal), None));
}

#[test]
fn failures_are_told_apart() {
    let unread = Error::Io { line: None, cause: "no such file".to_string() };
    let broken = Error::Io { line: Some(3), cause: "stream ended".to_string() };
    assert_ne!(unread, broken);
    assert_eq!(broken.clone(), broken);
    assert_ne!(
        Error::ParseError { line: 3, cause: "invalid float literal".to_string() },
        Error::InconsistentDataset { line: 3 }
    );
    assert_ne!(
        Error::NonComparable { position: 3 },
        Error::NonComparable { position: 4 }
    );
}
