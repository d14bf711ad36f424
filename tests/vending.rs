use deque::coin::{Coin, CoinError};
use deque::vending::{VendingMachine, VendingMachineError};

fn change_box(coins: &[(Coin, usize)]) -> Vec<usize> {
    let mut counts = vec![0usize; 6];
    for (coin, amount) in coins {
        counts[coin.index()] = *amount;
    }
    counts
}

fn worth(coins: &[Coin]) -> usize {
    coins.iter().map(|c| c.value()).sum()
}

#[test]
fn calc_rest() {
    let machine_coins = change_box(&[(Coin::Fifty, 2), (Coin::Ten, 1), (Coin::Two, 7)]);

    assert!(VendingMachine::calc_rest(0, &machine_coins)
        .unwrap()
        .is_empty());

    let rest = VendingMachine::calc_rest(14, &machine_coins).unwrap();
    assert_eq!(&rest[..], &[Coin::Ten, Coin::Two, Coin::Two]);

    let rest = VendingMachine::calc_rest(13, &machine_coins);
    assert_eq!(rest, None);

    VendingMachine::calc_rest(124, &machine_coins).unwrap();

    assert!(VendingMachine::calc_rest(125, &machine_coins).is_none());
}

#[test]
fn change_needs_backtracking() {
    // greedy would take the twenty and get stuck; the search leaves it out
    let coins = change_box(&[(Coin::Twenty, 1), (Coin::Ten, 3)]);
    let rest = VendingMachine::calc_rest(30, &coins).unwrap();
    assert_eq!(worth(&rest), 30);
    assert_eq!(&rest[..], &[Coin::Twenty, Coin::Ten]);

    let coins = change_box(&[(Coin::Five, 1), (Coin::Two, 3)]);
    let rest = VendingMachine::calc_rest(6, &coins).unwrap();
    assert_eq!(&rest[..], &[Coin::Two, Coin::Two, Coin::Two]);
    assert!(VendingMachine::calc_rest(4, &change_box(&[(Coin::Five, 3)])).is_none());
}

#[test]
fn coin_values_round_trip() {
    for value in 0..=255u8 {
        match Coin::try_from(value) {
            Ok(coin) => assert_eq!(coin.value(), value as usize),
            Err(e) => {
                assert_eq!(e, CoinError::NoSuchCoin);
                assert!(![1, 2, 5, 10, 20, 50].contains(&value));
            }
        }
    }
    assert_eq!(Coin::try_from(20), Ok(Coin::Twenty));
    assert_eq!(Coin::of_rank(5), Coin::Fifty);
}

#[test]
fn stocking_rules() {
    let mut machine = VendingMachine::new(3);
    assert!(VendingMachine::add_product(&mut machine, "tea".into(), 12).is_ok());
    assert!(matches!(
        VendingMachine::add_product(&mut machine, "tea".into(), 15),
        Err(VendingMachineError::SameProductNameDifferentPrice)
    ));
    assert!(VendingMachine::add_product(&mut machine, "tea".into(), 12).is_ok());
    assert!(VendingMachine::add_product(&mut machine, "gum".into(), 3).is_ok());
    assert!(matches!(
        VendingMachine::add_product(&mut machine, "cola".into(), 20),
        Err(VendingMachineError::OutOfFreeSpace)
    ));
}

#[test]
fn add_products_stops_at_first_refusal() {
    let mut machine = VendingMachine::new(10);
    let r = VendingMachine::add_products(
        &mut machine,
        vec![
            ("tea".to_string(), 12),
            ("gum".to_string(), 3),
            ("tea".to_string(), 13),
            ("cola".to_string(), 20),
        ],
    );
    assert!(matches!(r, Err(VendingMachineError::SameProductNameDifferentPrice)));
    assert!(machine.clone().choose_product("gum".into()).is_ok());
    assert!(matches!(
        machine.choose_product("cola".into()),
        Err(VendingMachineError::NoProduct)
    ));
}

#[test]
fn buying_with_change() {
    let mut machine = VendingMachine::new(5);
    VendingMachine::add_products(&mut machine, vec![("tea".to_string(), 12)]).unwrap();
    VendingMachine::add_coins(&mut machine, vec![Coin::Five, Coin::Two, Coin::One, Coin::Two]);
    VendingMachine::add_coin(&mut machine, Coin::Ten);

    let mut paying = machine.choose_product("tea".into()).unwrap();
    paying.insert_coin(Coin::Ten);
    paying.inset_coins(vec![Coin::Five, Coin::Two]);
    let (machine, product, change) = paying.get_product().unwrap();
    assert_eq!(product.get_price(), 12);
    assert_eq!(product.get_name(), "tea");
    assert_eq!(change, vec![Coin::Five]);

    // the only tea is gone
    assert!(matches!(
        machine.choose_product("tea".into()),
        Err(VendingMachineError::NoProduct)
    ));
}

#[test]
fn payment_refusals() {
    let mut machine = VendingMachine::new(5);
    VendingMachine::add_product(&mut machine, "tea".into(), 12).unwrap();
    VendingMachine::add_product(&mut machine, "tea".into(), 12).unwrap();

    let mut paying = machine.clone().choose_product("tea".into()).unwrap();
    paying.insert_coin(Coin::Ten);
    assert!(matches!(paying.get_product(), Err(VendingMachineError::NotEnoughMoney)));

    let mut paying = machine.clone().choose_product("tea".into()).unwrap();
    paying.inset_coins(vec![Coin::Ten, Coin::Five]);
    match paying.get_product() {
        Err(VendingMachineError::CantGiveRest(back)) => assert_eq!(back, vec![Coin::Ten, Coin::Five]),
        _ => panic!("change of 3 cannot be given from an empty box"),
    }

    let mut paying = machine.choose_product("tea".into()).unwrap();
    paying.inset_coins(vec![Coin::Ten, Coin::Two]);
    let (machine, _, change) = paying.get_product().unwrap();
    assert!(change.is_empty());
    // one tea is left
    assert!(machine.choose_product("tea".into()).is_ok());
}
