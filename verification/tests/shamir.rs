use secret_sharing::errors::SssError;
use secret_sharing::shamir::ShamirSecretSharing;

#[test]
fn test_generate_and_reconstruct_secret() {
    let secret = 12345;
    let total_shares = 5;
    let threshold = 3;

    let mut sss = ShamirSecretSharing::init(secret, total_shares, threshold).unwrap();
    let shares = sss.generate_shares();
    assert_eq!(shares.len(), total_shares as usize);
    let reconstructed_secret = sss
        .reconstruct_secret(&shares[..threshold as usize].to_vec())
        .unwrap();
    assert_eq!(reconstructed_secret, secret);
    let reconstructed_secret_all = sss.reconstruct_secret(&shares).unwrap();
    assert_eq!(reconstructed_secret_all, secret);
}

#[test]
fn test_insufficient_shares() {
    let secret = 9876;
    let total_shares = 5;
    let threshold = 3;

    let mut sss = ShamirSecretSharing::init(secret, total_shares, threshold).unwrap();
    let shares = sss.generate_shares();

    let result = sss.reconstruct_secret(&shares[..(threshold - 1) as usize].to_vec());
    assert!(result.is_err());
    assert_eq!(result.err().unwrap().message(), "Not enough shares");
}

#[test]
fn test_edge_case_threshold_equals_total_shares() {
    let secret = 54321;
    let total_shares = 5;
    let threshold = 5;

    let mut sss = ShamirSecretSharing::init(secret, total_shares, threshold).unwrap();
    let shares = sss.generate_shares();
    let reconstructed_secret = sss.reconstruct_secret(&shares).unwrap();
    assert_eq!(reconstructed_secret, secret);
}

#[test]
fn test_edge_case_single_share() {
    let secret = 1111;
    let total_shares = 1;
    let threshold = 1;

    let mut sss = ShamirSecretSharing::init(secret, total_shares, threshold).unwrap();
    let shares = sss.generate_shares();
    let reconstructed_secret = sss.reconstruct_secret(&shares).unwrap();
    assert_eq!(reconstructed_secret, secret);
}

#[test]
fn test_share_indices_distinct_in_range() {
    let mut sss = ShamirSecretSharing::init(424242, 7, 4).unwrap();
    let shares = sss.generate_shares();
    assert_eq!(shares.len(), 7);
    for (k, &(x, y)) in shares.iter().enumerate() {
        assert_eq!(x, k as i128 + 1);
        assert!(1 <= x && x <= 7);
        assert!(0 <= y && y < 2147483647);
    }
    for a in 0..shares.len() {
        for b in (a + 1)..shares.len() {
            assert_ne!(shares[a].0, shares[b].0);
        }
    }
}

#[test]
fn test_init_rejects_bad_configuration() {
    assert_eq!(
        ShamirSecretSharing::init(5, 3, 4).err().unwrap(),
        SssError::Configuration
    );
    assert_eq!(
        ShamirSecretSharing::init(-1, 3, 2).err().unwrap(),
        SssError::Configuration
    );
    assert_eq!(
        ShamirSecretSharing::init(2147483647, 3, 2).err().unwrap(),
        SssError::Configuration
    );
    assert_eq!(
        ShamirSecretSharing::init(5, 3, 0).err().unwrap(),
        SssError::Configuration
    );
    assert!(ShamirSecretSharing::init(0, 1, 1).is_ok());
}

#[test]
fn test_even_quorum_reconstructs_exactly() {
    // Reconstruction is exact interpolation for every quorum size, even
    // ones included.
    let secret = 12345;
    let mut sss = ShamirSecretSharing::init(secret, 5, 2).unwrap();
    let shares = sss.generate_shares();
    assert_eq!(sss.reconstruct_secret(&shares[..2].to_vec()).unwrap(), secret);
    assert_eq!(sss.reconstruct_secret(&shares[..4].to_vec()).unwrap(), secret);
    assert_eq!(sss.reconstruct_secret(&shares[..3].to_vec()).unwrap(), secret);
}

#[test]
fn test_insufficient_shares_error_variant() {
    let mut sss = ShamirSecretSharing::init(77, 4, 3).unwrap();
    let shares = sss.generate_shares();
    let result = sss.reconstruct_secret(&shares[..2].to_vec());
    assert_eq!(result.err().unwrap(), SssError::InsufficientShares);
}
