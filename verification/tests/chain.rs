use spark::chain::{
    delegate_smt_type_ids, init_static_variables, stake_smt_type_ids, stake_type_ids, CellOutput,
    Script,
};
use spark::tx_types::{DelegateSmtTypeIds, NetworkType, StakeSmtTypeIds, StakeTypeIds};
use spark::types::H256;

fn hash(byte: u8) -> H256 {
    H256([byte; 32])
}

#[test]
fn init_static_variables_keeps_every_identifier() {
    let ids = init_static_variables(
        NetworkType::Mainnet,
        vec![1, 2, 3],
        hash(1),
        hash(2),
        hash(3),
        hash(4),
        hash(5),
        hash(6),
        hash(7),
        hash(8),
        hash(9),
    );
    assert_eq!(ids.network_type, NetworkType::Mainnet);
    assert_eq!(ids.axon_token_args, vec![1u8, 2, 3]);
    assert_eq!(ids.xudt_owner, hash(1));
    assert_eq!(ids.issuance_type_id, hash(2));
    assert_eq!(ids.metadata_type_id, hash(3));
    assert_eq!(ids.metadata_code_hash, hash(4));
    assert_eq!(ids.checkpoint_type_id, hash(5));
    assert_eq!(ids.stake_at_code_hash, hash(6));
    assert_eq!(ids.stake_smt_code_hash, hash(7));
    assert_eq!(ids.delegate_at_code_hash, hash(8));
    assert_eq!(ids.delegate_smt_code_hash, hash(9));
}

#[test]
fn type_ids_pick_their_identifiers() {
    let ids = init_static_variables(
        NetworkType::Testnet,
        vec![],
        hash(1),
        hash(2),
        hash(3),
        hash(4),
        hash(5),
        hash(6),
        hash(7),
        hash(8),
        hash(9),
    );
    assert_eq!(
        stake_type_ids(&ids),
        StakeTypeIds { metadata_type_id: hash(3), checkpoint_type_id: hash(5), xudt_owner: hash(1) }
    );
    assert_eq!(
        stake_smt_type_ids(&ids),
        StakeSmtTypeIds {
            metadata_type_id: hash(3),
            stake_smt_type_id: hash(7),
            checkpoint_type_id: hash(5),
            xudt_owner: hash(1),
        }
    );
    assert_eq!(
        delegate_smt_type_ids(&ids),
        DelegateSmtTypeIds {
            metadata_type_id: hash(3),
            delegate_smt_type_id: hash(9),
            checkpoint_type_id: hash(5),
            xudt_owner: hash(1),
        }
    );
}

#[test]
fn script_is_compares_code_and_arguments() {
    let script = Script { code_hash: hash(1), args: vec![1, 2] };
    assert!(script.is(&hash(1), &[1, 2]));
    assert!(!script.is(&hash(2), &[1, 2]));
    assert!(!script.is(&hash(1), &[1]));
}

#[test]
fn chain_ids_recognise_their_cells() {
    let ids = init_static_variables(
        NetworkType::Testnet,
        vec![0xA1],
        hash(1),
        hash(2),
        hash(3),
        hash(4),
        hash(5),
        hash(6),
        hash(7),
        hash(8),
        hash(9),
    );
    let metadata = CellOutput {
        lock: Script { code_hash: hash(0), args: vec![] },
        type_: Some(Script { code_hash: hash(4), args: vec![3u8; 32] }),
    };
    assert!(ids.is_metadata_cell(&metadata));
    assert!(!ids.is_tree_cell(&metadata, &hash(7)));
    let token = CellOutput {
        lock: Script { code_hash: hash(6), args: vec![] },
        type_: Some(Script { code_hash: hash(0), args: vec![0xA1] }),
    };
    assert!(ids.is_token_cell(&token, &hash(6)));
    assert!(!ids.is_token_cell(&token, &hash(8)));
    assert!(!ids.is_metadata_cell(&token));
    let tree = CellOutput {
        lock: Script { code_hash: hash(0), args: vec![] },
        type_: Some(Script { code_hash: hash(7), args: vec![2u8; 32] }),
    };
    assert!(ids.is_tree_cell(&tree, &hash(7)));
    assert!(!ids.is_tree_cell(&tree, &hash(9)));
}
