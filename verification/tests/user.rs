use lkh::user::User;

#[test]
fn test_print() {
    let user: User<Box<dyn Fn(Vec<u8>)>> = User {
        user_id: "123".to_string(),
        send: Box::new(|data| println!("Sending data: {:?}", data)),
    };
    assert_eq!(user.describe(), "User [123]");
}

#[test]
fn test_send() {
    let user: User<Box<dyn Fn(Vec<u8>)>> = User {
        user_id: "123".to_string(),
        send: Box::new(|data| println!("{:?}", data)),
    };
    (user.send)(b"Hello, World!".to_vec());
}

#[test]
fn test_eq_user() {
    let user1: User<Box<dyn Fn(Vec<u8>)>> = User {
        user_id: "1".to_string(),
        send: Box::new(|data| println!("{:?}", data)),
    };
    let user2: User<Box<dyn Fn(Vec<u8>)>> = User {
        user_id: "2".to_string(),
        send: Box::new(|data| println!("{:?}", data)),
    };
    let user3: User<Box<dyn Fn(Vec<u8>)>> = User {
        user_id: "1".to_string(),
        send: Box::new(|data| println!("{:?}", data)),
    };
    assert!(user1 != user2);
    assert!(user1 == user3);
}
