use franklin_crypto::bellman::pairing::bn256::{Bn256, Fr, FrRepr};
use franklin_crypto::bellman::pairing::ff::PrimeField;
use franklin_crypto::bellman::plonk::better_better_cs::cs::{
    ConstraintSystem, TrivialAssembly, Width4MainGateWithDNext,
};
use franklin_crypto::plonk::circuit::allocated_num::AllocatedNum;
use franklin_crypto::plonk::circuit::rescue::StatefulRescueGadget;
use franklin_crypto::plonk::circuit::Width4WithCustomGates;
use franklin_crypto::rescue::bn256::Bn256RescueParams;

use merkle_path_auth::field::Fe;
use merkle_path_auth::params::{rescue_compress, RescueParams};

fn fe_to_fr(fe: &Fe) -> Fr {
    Fr::from_repr(FrRepr(fe.limbs)).expect("canonical representation")
}

fn fr_to_fe(fr: &Fr) -> Fe {
    Fe { limbs: fr.into_repr().0 }
}

/// Native-mode and constrained-mode compression must agree bit for bit.
#[test]
fn cross_mode_hash_consistency() {
    let lib_params = RescueParams::new();
    let raw_params = Bn256RescueParams::new_checked_2_into_1();

    let samples: [(u64, u64); 4] = [(0, 0), (1, 2), (684, 10), (u64::MAX, 12345)];
    for (a, b) in samples.iter() {
        let fa = Fe::from_u64(*a);
        let fb = Fe::from_u64(*b);
        let native = rescue_compress(&lib_params, &fa, &fb);

        let mut cs = TrivialAssembly::<
            Bn256,
            Width4WithCustomGates,
            Width4MainGateWithDNext,
        >::new();
        let wa = AllocatedNum::alloc(&mut cs, || Ok(fe_to_fr(&fa))).unwrap();
        let wb = AllocatedNum::alloc(&mut cs, || Ok(fe_to_fr(&fb))).unwrap();
        let mut gadget = StatefulRescueGadget::<Bn256>::new(&raw_params);
        gadget.specizalize(2);
        gadget
            .absorb(&mut cs, &[wa, wb], &raw_params)
            .unwrap();
        let constrained = gadget.squeeze_out_single(&mut cs, &raw_params).unwrap();
        let constrained_value = constrained.get_value().unwrap();
        cs.finalize();
        assert!(cs.is_satisfied());

        assert!(native == fr_to_fe(&constrained_value), "inputs {} {}", a, b);
    }
}

/// The library's native compression agrees with the crate's own sponge.
#[test]
fn native_compress_matches_reference_sponge() {
    let lib_params = RescueParams::new();
    let raw_params = Bn256RescueParams::new_checked_2_into_1();

    let fa = Fe::from_u64(31);
    let fb = Fe::from_u64(415);
    let ours = rescue_compress(&lib_params, &fa, &fb);
    let reference =
        franklin_crypto::rescue::rescue_hash::<Bn256>(&raw_params, &[fe_to_fr(&fa), fe_to_fr(&fb)]);
    assert_eq!(reference.len(), 1);
    assert!(ours == fr_to_fe(&reference[0]));
}

/// Compression is not the identity on either argument.
#[test]
fn compress_moves_its_inputs() {
    let lib_params = RescueParams::new();
    let zero = Fe::zero();
    let one = Fe::from_u64(1);
    let h = rescue_compress(&lib_params, &zero, &one);
    assert!(h != zero);
    assert!(h != one);
}
