//! The table of roots of unity of the scalar field: for each scale `k` up to
//! 31 a primitive `2^k`-th root, each the square of the next.
use crate::field::{
    fr_mul, fr_pow, is_fr, lemma_cong_eq, lemma_fr_pow_mul, lemma_fr_pow_of_one, lemma_fr_pow_one,
    lemma_fr_pow_succ, lemma_fr_pow_zero, lemma_mul_c, lemma_reduce_small, modulus,
};
use crate::scalar::limbs_value;
use vstd::arithmetic::div_mod::lemma_fundamental_div_mod_converse;
use vstd::arithmetic::power2::{lemma_pow2_unfold, pow2};
use vstd::prelude::*;

verus! {

/// The number of scales that the table holds: the scales `0` to `31`.
pub const NUM_SCALES: usize = 32;

/// The table's root of unity of order `2^scale`, as an integer.
#[verifier::opaque]
pub open spec fn root_of_unity(scale: nat) -> nat {
    if scale == 0 {
        0x1nat
    } else if scale == 1 {
        0x73eda753299d7d483339d80809a1d80553bda402fffe5bfeffffffff00000000nat
    } else if scale == 2 {
        0x8d51ccce760304d0ec030002760300000001000000000000nat
    } else if scale == 3 {
        0x345766f603fa66e78c0625cd70d77ce2b38b21c28713b7007228fd3397743f7anat
    } else if scale == 4 {
        0x20b1ce9140267af9dd1c0af834cec32c17beb312f20b6f7653ea61d87742bccenat
    } else if scale == 5 {
        0x50e0903a157988bab4bcd40e22f55448bf6e88fb4c38fb8a360c60997369df4enat
    } else if scale == 6 {
        0x45af6345ec055e4d14a1e27164d8fdbd2d967f4be2f951558140d032f0a9ee53nat
    } else if scale == 7 {
        0x6898111413588742b7c68b4d7fdd60d098d0caac87f5713c5130c2c1660125benat
    } else if scale == 8 {
        0x4f9b4098e2e9f12e6b368121ac0cf4ad0a0865a899e8deff4935bd2f817f694bnat
    } else if scale == 9 {
        0x95166525526a65439feec240d80689fd697168a3a6000fe4541b8ff2ee0434enat
    } else if scale == 10 {
        0x325db5c3debf77a18f4de02c0f776af3ea437f9626fc085e3c28d666a5c2d854nat
    } else if scale == 11 {
        0x6d031f1b5c49c83409f1ca610a08f16655ea6811be9c622d4a838b5d59cd79e5nat
    } else if scale == 12 {
        0x564c0a11a0f704f4fc3e8acfe0f8245f0ad1347b378fbf96e206da11a5d36306nat
    } else if scale == 13 {
        0x485d512737b1da3d2ccddea2972e89ed146b58bc434906ac6fdd00bfc78c8967nat
    } else if scale == 14 {
        0x56624634b500a166dc86b01c0d477fa6ae4622f6a9152435034d2ff22a5ad9e1nat
    } else if scale == 15 {
        0x3291357ee558b50d483405417a0cbe39c8d5f51db3f32699fbd047e11279bb6enat
    } else if scale == 16 {
        0x2155379d12180caa88f39a78f1aeb57867a665ae1fcadc91d7118f85cd96b8adnat
    } else if scale == 17 {
        0x224262332d8acbf4473a2eef772c33d6cd7f2bd6d0711b7d08692405f3b70f10nat
    } else if scale == 18 {
        0x2d3056a530794f01652f717ae1c34bb0bb97a3bf30ce40fd6f421a7d8ef674fbnat
    } else if scale == 19 {
        0x520e587a724a6955df625e80d0adef90ad8e16e84419c750194e8c62ecb38d9dnat
    } else if scale == 20 {
        0x3e1c54bcb947035a57a6e07cb98de4a2f69e02d265e09d9fece7e0e39898d4bnat
    } else if scale == 21 {
        0x47c8b5817018af4fc70d0874b0691d4e46b3105f04db5844cd3979122d3ea03anat
    } else if scale == 22 {
        0xabe6a5e5abcaa32f2d38f10fbb8d1bbe08fec7c86389beec6e7a6ffb08e3363nat
    } else if scale == 23 {
        0x73560252aa0655b25121af06a3b51e3cc631ffb2585a72db5616c57de0ec9eaenat
    } else if scale == 24 {
        0x291cf6d68823e6876e0bcd91ee76273072cf6a8029b7d7bc92cf4deb77bd779cnat
    } else if scale == 25 {
        0x19fe632fd3287390454dc1edc61a1a3c0ba12bb3da64ca5ce32ef844e11a51enat
    } else if scale == 26 {
        0xa0a77a3b1980c0d116168bffbedc11d02c8118402867ddc531a11a0d2d75182nat
    } else if scale == 27 {
        0x23397a9300f8f98bece8ea224f31d25db94f1101b1d7a628e2d0a7869f0319ednat
    } else if scale == 28 {
        0x52dd465e2f09425699e276b571905a7d6558e9e3f6ac7b41d7b688830a4f2089nat
    } else if scale == 29 {
        0xc83ea7744bf1bee8da40c1ef2bb459884d37b826214abc6474650359d8e211bnat
    } else if scale == 30 {
        0x2c6d4e4511657e1e1339a815da8b398fed3a181fabb30adc694341f608c9dd56nat
    } else {
        0x4b5371495990693fad1715b02e5713b5f070bb00e28a193d63e7cb4906ffc93fnat
    }
}

/// The limbs, least significant first, of the table's root of unity of order
/// `2^scale`.
pub fn scale2_root_of_unity(scale: usize) -> (r: [u64; 4])
    requires
        scale < NUM_SCALES,
    ensures
        limbs_value(r@) == root_of_unity(scale as nat),
        is_fr(root_of_unity(scale as nat)),
{
    proof {
        reveal(root_of_unity);
    }
    if scale == 0 {
        [0x0000000000000001, 0x0000000000000000, 0x0000000000000000, 0x0000000000000000]
    } else if scale == 1 {
        [0xffffffff00000000, 0x53bda402fffe5bfe, 0x3339d80809a1d805, 0x73eda753299d7d48]
    } else if scale == 2 {
        [0x0001000000000000, 0xec03000276030000, 0x8d51ccce760304d0, 0x0000000000000000]
    } else if scale == 3 {
        [0x7228fd3397743f7a, 0xb38b21c28713b700, 0x8c0625cd70d77ce2, 0x345766f603fa66e7]
    } else if scale == 4 {
        [0x53ea61d87742bcce, 0x17beb312f20b6f76, 0xdd1c0af834cec32c, 0x20b1ce9140267af9]
    } else if scale == 5 {
        [0x360c60997369df4e, 0xbf6e88fb4c38fb8a, 0xb4bcd40e22f55448, 0x50e0903a157988ba]
    } else if scale == 6 {
        [0x8140d032f0a9ee53, 0x2d967f4be2f95155, 0x14a1e27164d8fdbd, 0x45af6345ec055e4d]
    } else if scale == 7 {
        [0x5130c2c1660125be, 0x98d0caac87f5713c, 0xb7c68b4d7fdd60d0, 0x6898111413588742]
    } else if scale == 8 {
        [0x4935bd2f817f694b, 0x0a0865a899e8deff, 0x6b368121ac0cf4ad, 0x4f9b4098e2e9f12e]
    } else if scale == 9 {
        [0x4541b8ff2ee0434e, 0xd697168a3a6000fe, 0x39feec240d80689f, 0x095166525526a654]
    } else if scale == 10 {
        [0x3c28d666a5c2d854, 0xea437f9626fc085e, 0x8f4de02c0f776af3, 0x325db5c3debf77a1]
    } else if scale == 11 {
        [0x4a838b5d59cd79e5, 0x55ea6811be9c622d, 0x09f1ca610a08f166, 0x6d031f1b5c49c834]
    } else if scale == 12 {
        [0xe206da11a5d36306, 0x0ad1347b378fbf96, 0xfc3e8acfe0f8245f, 0x564c0a11a0f704f4]
    } else if scale == 13 {
        [0x6fdd00bfc78c8967, 0x146b58bc434906ac, 0x2ccddea2972e89ed, 0x485d512737b1da3d]
    } else if scale == 14 {
        [0x034d2ff22a5ad9e1, 0xae4622f6a9152435, 0xdc86b01c0d477fa6, 0x56624634b500a166]
    } else if scale == 15 {
        [0xfbd047e11279bb6e, 0xc8d5f51db3f32699, 0x483405417a0cbe39, 0x3291357ee558b50d]
    } else if scale == 16 {
        [0xd7118f85cd96b8ad, 0x67a665ae1fcadc91, 0x88f39a78f1aeb578, 0x2155379d12180caa]
    } else if scale == 17 {
        [0x08692405f3b70f10, 0xcd7f2bd6d0711b7d, 0x473a2eef772c33d6, 0x224262332d8acbf4]
    } else if scale == 18 {
        [0x6f421a7d8ef674fb, 0xbb97a3bf30ce40fd, 0x652f717ae1c34bb0, 0x2d3056a530794f01]
    } else if scale == 19 {
        [0x194e8c62ecb38d9d, 0xad8e16e84419c750, 0xdf625e80d0adef90, 0x520e587a724a6955]
    } else if scale == 20 {
        [0xfece7e0e39898d4b, 0x2f69e02d265e09d9, 0xa57a6e07cb98de4a, 0x03e1c54bcb947035]
    } else if scale == 21 {
        [0xcd3979122d3ea03a, 0x46b3105f04db5844, 0xc70d0874b0691d4e, 0x47c8b5817018af4f]
    } else if scale == 22 {
        [0xc6e7a6ffb08e3363, 0xe08fec7c86389bee, 0xf2d38f10fbb8d1bb, 0x0abe6a5e5abcaa32]
    } else if scale == 23 {
        [0x5616c57de0ec9eae, 0xc631ffb2585a72db, 0x5121af06a3b51e3c, 0x73560252aa0655b2]
    } else if scale == 24 {
        [0x92cf4deb77bd779c, 0x72cf6a8029b7d7bc, 0x6e0bcd91ee762730, 0x291cf6d68823e687]
    } else if scale == 25 {
        [0xce32ef844e11a51e, 0xc0ba12bb3da64ca5, 0x0454dc1edc61a1a3, 0x019fe632fd328739]
    } else if scale == 26 {
        [0x531a11a0d2d75182, 0x02c8118402867ddc, 0x116168bffbedc11d, 0x0a0a77a3b1980c0d]
    } else if scale == 27 {
        [0xe2d0a7869f0319ed, 0xb94f1101b1d7a628, 0xece8ea224f31d25d, 0x23397a9300f8f98b]
    } else if scale == 28 {
        [0xd7b688830a4f2089, 0x6558e9e3f6ac7b41, 0x99e276b571905a7d, 0x52dd465e2f094256]
    } else if scale == 29 {
        [0x474650359d8e211b, 0x84d37b826214abc6, 0x8da40c1ef2bb4598, 0x0c83ea7744bf1bee]
    } else if scale == 30 {
        [0x694341f608c9dd56, 0xed3a181fabb30adc, 0x1339a815da8b398f, 0x2c6d4e4511657e1e]
    } else {
        [0x63e7cb4906ffc93f, 0xf070bb00e28a193d, 0xad1715b02e5713b5, 0x4b5371495990693f]
    }
}

/// Each root of the table is below the modulus.
pub proof fn lemma_root_is_fr(k: nat)
    requires
        k < 32,
    ensures
        is_fr(root_of_unity(k)),
{
    reveal(root_of_unity);
}

/// Each root of the table squares to the one before it.
pub proof fn lemma_root_squares(k: nat)
    requires
        1 <= k < 32,
    ensures
        fr_mul(root_of_unity(k), root_of_unity(k)) == root_of_unity((k - 1) as nat),
{
    reveal(root_of_unity);
    let m = modulus() as int;
    let a = root_of_unity(k) as int;
    let b = root_of_unity((k - 1) as nat) as int;
    if k == 1 {
        assert(0x73eda753299d7d483339d80809a1d80553bda402fffe5bfeffffffff00000000int * 0x73eda753299d7d483339d80809a1d80553bda402fffe5bfeffffffff00000000int == 0x73eda753299d7d483339d80809a1d80553bda402fffe5bfefffffffeffffffffint * 0x73eda753299d7d483339d80809a1d80553bda402fffe5bfeffffffff00000001int + 0x1int);
        lemma_fundamental_div_mod_converse(a * a, m, 0x73eda753299d7d483339d80809a1d80553bda402fffe5bfefffffffeffffffffint, b);
    } else if k == 2 {
        assert(0x8d51ccce760304d0ec030002760300000001000000000000int * 0x8d51ccce760304d0ec030002760300000001000000000000int == 0xac45a4010001a4020000000100000000int * 0x73eda753299d7d483339d80809a1d80553bda402fffe5bfeffffffff00000001int + 0x73eda753299d7d483339d80809a1d80553bda402fffe5bfeffffffff00000000int);
        lemma_fundamental_div_mod_converse(a * a, m, 0xac45a4010001a4020000000100000000int, b);
    } else if k == 3 {
        assert(0x345766f603fa66e78c0625cd70d77ce2b38b21c28713b7007228fd3397743f7aint * 0x345766f603fa66e78c0625cd70d77ce2b38b21c28713b7007228fd3397743f7aint == 0x17a1cdc048cdb1278454e23dc04aaf593e9344a7a37aaf2d77cf0c6b824d4624int * 0x73eda753299d7d483339d80809a1d80553bda402fffe5bfeffffffff00000001int + 0x8d51ccce760304d0ec030002760300000001000000000000int);
        lemma_fundamental_div_mod_converse(a * a, m, 0x17a1cdc048cdb1278454e23dc04aaf593e9344a7a37aaf2d77cf0c6b824d4624int, b);
    } else if k == 4 {
        assert(0x20b1ce9140267af9dd1c0af834cec32c17beb312f20b6f7653ea61d87742bcceint * 0x20b1ce9140267af9dd1c0af834cec32c17beb312f20b6f7653ea61d87742bcceint == 0x9387c422d7cefe2c20eb21442545c8638ea24eb341e34ae27b3cda3d202f64aint * 0x73eda753299d7d483339d80809a1d80553bda402fffe5bfeffffffff00000001int + 0x345766f603fa66e78c0625cd70d77ce2b38b21c28713b7007228fd3397743f7aint);
        lemma_fundamental_div_mod_converse(a * a, m, 0x9387c422d7cefe2c20eb21442545c8638ea24eb341e34ae27b3cda3d202f64aint, b);
    } else if k == 5 {
        assert(0x50e0903a157988bab4bcd40e22f55448bf6e88fb4c38fb8a360c60997369df4eint * 0x50e0903a157988bab4bcd40e22f55448bf6e88fb4c38fb8a360c60997369df4eint == 0x386c80aaeff17f5277bec07697315a9256acbcf5e7689d06a0f792c28d823ef6int * 0x73eda753299d7d483339d80809a1d80553bda402fffe5bfeffffffff00000001int + 0x20b1ce9140267af9dd1c0af834cec32c17beb312f20b6f7653ea61d87742bcceint);
        lemma_fundamental_div_mod_converse(a * a, m, 0x386c80aaeff17f5277bec07697315a9256acbcf5e7689d06a0f792c28d823ef6int, b);
    } else if k == 6 {
        assert(0x45af6345ec055e4d14a1e27164d8fdbd2d967f4be2f951558140d032f0a9ee53int * 0x45af6345ec055e4d14a1e27164d8fdbd2d967f4be2f951558140d032f0a9ee53int == 0x29e358a60746b7fbcb35f71de474d1454e6ba9a6ad4648a255653715b40a8f9bint * 0x73eda753299d7d483339d80809a1d80553bda402fffe5bfeffffffff00000001int + 0x50e0903a157988bab4bcd40e22f55448bf6e88fb4c38fb8a360c60997369df4eint);
        lemma_fundamental_div_mod_converse(a * a, m, 0x29e358a60746b7fbcb35f71de474d1454e6ba9a6ad4648a255653715b40a8f9bint, b);
    } else if k == 7 {
        assert(0x6898111413588742b7c68b4d7fdd60d098d0caac87f5713c5130c2c1660125beint * 0x6898111413588742b7c68b4d7fdd60d098d0caac87f5713c5130c2c1660125beint == 0x5e5e2b110231c03083ccd5493c04a498ead16b7e63ad3a7f5df5850ec8628ab1int * 0x73eda753299d7d483339d80809a1d80553bda402fffe5bfeffffffff00000001int + 0x45af6345ec055e4d14a1e27164d8fdbd2d967f4be2f951558140d032f0a9ee53int);
        lemma_fundamental_div_mod_converse(a * a, m, 0x5e5e2b110231c03083ccd5493c04a498ead16b7e63ad3a7f5df5850ec8628ab1int, b);
    } else if k == 8 {
        assert(0x4f9b4098e2e9f12e6b368121ac0cf4ad0a0865a899e8deff4935bd2f817f694bint * 0x4f9b4098e2e9f12e6b368121ac0cf4ad0a0865a899e8deff4935bd2f817f694bint == 0x36aa29c22b40321ba61b5f8d4f77795c110acbf388c9e1c8d157c28ad3b7763bint * 0x73eda753299d7d483339d80809a1d80553bda402fffe5bfeffffffff00000001int + 0x6898111413588742b7c68b4d7fdd60d098d0caac87f5713c5130c2c1660125beint);
        lemma_fundamental_div_mod_converse(a * a, m, 0x36aa29c22b40321ba61b5f8d4f77795c110acbf388c9e1c8d157c28ad3b7763bint, b);
    } else if k == 9 {
        assert(0x95166525526a65439feec240d80689fd697168a3a6000fe4541b8ff2ee0434eint * 0x95166525526a65439feec240d80689fd697168a3a6000fe4541b8ff2ee0434eint == 0xbfbb2ef2ee09fe34f8f27564be4b574bb19a28a01c91801d34575360b28279int * 0x73eda753299d7d483339d80809a1d80553bda402fffe5bfeffffffff00000001int + 0x4f9b4098e2e9f12e6b368121ac0cf4ad0a0865a899e8deff4935bd2f817f694bint);
        lemma_fundamental_div_mod_converse(a * a, m, 0xbfbb2ef2ee09fe34f8f27564be4b574bb19a28a01c91801d34575360b28279int, b);
    } else if k == 10 {
        assert(0x325db5c3debf77a18f4de02c0f776af3ea437f9626fc085e3c28d666a5c2d854int * 0x325db5c3debf77a18f4de02c0f776af3ea437f9626fc085e3c28d666a5c2d854int == 0x15e1c84c3f26c9b1e00eae02d90a05e7542a1f75ba7e56e4a881715baf3d9842int * 0x73eda753299d7d483339d80809a1d80553bda402fffe5bfeffffffff00000001int + 0x95166525526a65439feec240d80689fd697168a3a6000fe4541b8ff2ee0434eint);
        lemma_fundamental_div_mod_converse(a * a, m, 0x15e1c84c3f26c9b1e00eae02d90a05e7542a1f75ba7e56e4a881715baf3d9842int, b);
    } else if k == 11 {
        assert(0x6d031f1b5c49c83409f1ca610a08f16655ea6811be9c622d4a838b5d59cd79e5int * 0x6d031f1b5c49c83409f1ca610a08f16655ea6811be9c622d4a838b5d59cd79e5int == 0x668237981ad07340e3bec76b2e667c1f236eb1410dc3572970685a2e07096e85int * 0x73eda753299d7d483339d80809a1d80553bda402fffe5bfeffffffff00000001int + 0x325db5c3debf77a18f4de02c0f776af3ea437f9626fc085e3c28d666a5c2d854int);
        lemma_fundamental_div_mod_converse(a * a, m, 0x668237981ad07340e3bec76b2e667c1f236eb1410dc3572970685a2e07096e85int, b);
    } else if k == 12 {
        assert(0x564c0a11a0f704f4fc3e8acfe0f8245f0ad1347b378fbf96e206da11a5d36306int * 0x564c0a11a0f704f4fc3e8acfe0f8245f0ad1347b378fbf96e206da11a5d36306int == 0x403d4f41dc6a8cda3cf38f8e270787fdc5640c7098f15d5c2c4c29dfc4642a3fint * 0x73eda753299d7d483339d80809a1d80553bda402fffe5bfeffffffff00000001int + 0x6d031f1b5c49c83409f1ca610a08f16655ea6811be9c622d4a838b5d59cd79e5int);
        lemma_fundamental_div_mod_converse(a * a, m, 0x403d4f41dc6a8cda3cf38f8e270787fdc5640c7098f15d5c2c4c29dfc4642a3fint, b);
    } else if k == 13 {
        assert(0x485d512737b1da3d2ccddea2972e89ed146b58bc434906ac6fdd00bfc78c8967int * 0x485d512737b1da3d2ccddea2972e89ed146b58bc434906ac6fdd00bfc78c8967int == 0x2d2bd4bacd6e3f84defbd926f073f958e1d4245c641a3b8419a3fcd00e94046bint * 0x73eda753299d7d483339d80809a1d80553bda402fffe5bfeffffffff00000001int + 0x564c0a11a0f704f4fc3e8acfe0f8245f0ad1347b378fbf96e206da11a5d36306int);
        lemma_fundamental_div_mod_converse(a * a, m, 0x2d2bd4bacd6e3f84defbd926f073f958e1d4245c641a3b8419a3fcd00e94046bint, b);
    } else if k == 14 {
        assert(0x56624634b500a166dc86b01c0d477fa6ae4622f6a9152435034d2ff22a5ad9e1int * 0x56624634b500a166dc86b01c0d477fa6ae4622f6a9152435034d2ff22a5ad9e1int == 0x405e6df92310b5afd19ea62edd2f1b3fc5abdf7db6a963f5565a28b9f816ae5aint * 0x73eda753299d7d483339d80809a1d80553bda402fffe5bfeffffffff00000001int + 0x485d512737b1da3d2ccddea2972e89ed146b58bc434906ac6fdd00bfc78c8967int);
        lemma_fundamental_div_mod_converse(a * a, m, 0x405e6df92310b5afd19ea62edd2f1b3fc5abdf7db6a963f5565a28b9f816ae5aint, b);
    } else if k == 15 {
        assert(0x3291357ee558b50d483405417a0cbe39c8d5f51db3f32699fbd047e11279bb6eint * 0x3291357ee558b50d483405417a0cbe39c8d5f51db3f32699fbd047e11279bb6eint == 0x160e9ebe700aee0e8574c66da309cd89d6ed44211ce409304995ad0b04db0963int * 0x73eda753299d7d483339d80809a1d80553bda402fffe5bfeffffffff00000001int + 0x56624634b500a166dc86b01c0d477fa6ae4622f6a9152435034d2ff22a5ad9e1int);
        lemma_fundamental_div_mod_converse(a * a, m, 0x160e9ebe700aee0e8574c66da309cd89d6ed44211ce409304995ad0b04db0963int, b);
    } else if k == 16 {
        assert(0x2155379d12180caa88f39a78f1aeb57867a665ae1fcadc91d7118f85cd96b8adint * 0x2155379d12180caa88f39a78f1aeb57867a665ae1fcadc91d7118f85cd96b8adint == 0x9958e6f287860573c01eaa5568342998d1392b9d3fcdc8db6ad07ddef7b697bint * 0x73eda753299d7d483339d80809a1d80553bda402fffe5bfeffffffff00000001int + 0x3291357ee558b50d483405417a0cbe39c8d5f51db3f32699fbd047e11279bb6eint);
        lemma_fundamental_div_mod_converse(a * a, m, 0x9958e6f287860573c01eaa5568342998d1392b9d3fcdc8db6ad07ddef7b697bint, b);
    } else if k == 17 {
        assert(0x224262332d8acbf4473a2eef772c33d6cd7f2bd6d0711b7d08692405f3b70f10int * 0x224262332d8acbf4473a2eef772c33d6cd7f2bd6d0711b7d08692405f3b70f10int == 0xa1fd62a66e50b750997f40fc9e83eea0500b811d36d501789a2b8ec1c2c2853int * 0x73eda753299d7d483339d80809a1d80553bda402fffe5bfeffffffff00000001int + 0x2155379d12180caa88f39a78f1aeb57867a665ae1fcadc91d7118f85cd96b8adint);
        lemma_fundamental_div_mod_converse(a * a, m, 0xa1fd62a66e50b750997f40fc9e83eea0500b811d36d501789a2b8ec1c2c2853int, b);
    } else if k == 18 {
        assert(0x2d3056a530794f01652f717ae1c34bb0bb97a3bf30ce40fd6f421a7d8ef674fbint * 0x2d3056a530794f01652f717ae1c34bb0bb97a3bf30ce40fd6f421a7d8ef674fbint == 0x119d5585e49aad5f9259d189b881bf07e02bc04bae10b9fb776bcb2c88215f09int * 0x73eda753299d7d483339d80809a1d80553bda402fffe5bfeffffffff00000001int + 0x224262332d8acbf4473a2eef772c33d6cd7f2bd6d0711b7d08692405f3b70f10int);
        lemma_fundamental_div_mod_converse(a * a, m, 0x119d5585e49aad5f9259d189b881bf07e02bc04bae10b9fb776bcb2c88215f09int, b);
    } else if k == 19 {
        assert(0x520e587a724a6955df625e80d0adef90ad8e16e84419c750194e8c62ecb38d9dint * 0x520e587a724a6955df625e80d0adef90ad8e16e84419c750194e8c62ecb38d9dint == 0x3a14a5a3be2166a2bb8b08bf05a97855021e83cee04f46af3e8f720d40eddd4eint * 0x73eda753299d7d483339d80809a1d80553bda402fffe5bfeffffffff00000001int + 0x2d3056a530794f01652f717ae1c34bb0bb97a3bf30ce40fd6f421a7d8ef674fbint);
        lemma_fundamental_div_mod_converse(a * a, m, 0x3a14a5a3be2166a2bb8b08bf05a97855021e83cee04f46af3e8f720d40eddd4eint, b);
    } else if k == 20 {
        assert(0x3e1c54bcb947035a57a6e07cb98de4a2f69e02d265e09d9fece7e0e39898d4bint * 0x3e1c54bcb947035a57a6e07cb98de4a2f69e02d265e09d9fece7e0e39898d4bint == 0x2146e2a0b8e0de7288868eee118eaaab19d42369bf1a60e0036d01018e265cint * 0x73eda753299d7d483339d80809a1d80553bda402fffe5bfeffffffff00000001int + 0x520e587a724a6955df625e80d0adef90ad8e16e84419c750194e8c62ecb38d9dint);
        lemma_fundamental_div_mod_converse(a * a, m, 0x2146e2a0b8e0de7288868eee118eaaab19d42369bf1a60e0036d01018e265cint, b);
    } else if k == 21 {
        assert(0x47c8b5817018af4fc70d0874b0691d4e46b3105f04db5844cd3979122d3ea03aint * 0x47c8b5817018af4fc70d0874b0691d4e46b3105f04db5844cd3979122d3ea03aint == 0x2c730c3140a37a7f3f53fcbdea18424e87b457e70cd38cf80220f1992ad6ffd9int * 0x73eda753299d7d483339d80809a1d80553bda402fffe5bfeffffffff00000001int + 0x3e1c54bcb947035a57a6e07cb98de4a2f69e02d265e09d9fece7e0e39898d4bint);
        lemma_fundamental_div_mod_converse(a * a, m, 0x2c730c3140a37a7f3f53fcbdea18424e87b457e70cd38cf80220f1992ad6ffd9int, b);
    } else if k == 22 {
        assert(0xabe6a5e5abcaa32f2d38f10fbb8d1bbe08fec7c86389beec6e7a6ffb08e3363int * 0xabe6a5e5abcaa32f2d38f10fbb8d1bbe08fec7c86389beec6e7a6ffb08e3363int == 0xfee5fb5d0ea236f1b501ec83e593c87e931ac7e47af231b20917dbfee5f80fint * 0x73eda753299d7d483339d80809a1d80553bda402fffe5bfeffffffff00000001int + 0x47c8b5817018af4fc70d0874b0691d4e46b3105f04db5844cd3979122d3ea03aint);
        lemma_fundamental_div_mod_converse(a * a, m, 0xfee5fb5d0ea236f1b501ec83e593c87e931ac7e47af231b20917dbfee5f80fint, b);
    } else if k == 23 {
        assert(0x73560252aa0655b25121af06a3b51e3cc631ffb2585a72db5616c57de0ec9eaeint * 0x73560252aa0655b25121af06a3b51e3cc631ffb2585a72db5616c57de0ec9eaeint == 0x72bf23af7a589fbb742d2d81ca32150255935a678663bc32c2871632c29d0ae1int * 0x73eda753299d7d483339d80809a1d80553bda402fffe5bfeffffffff00000001int + 0xabe6a5e5abcaa32f2d38f10fbb8d1bbe08fec7c86389beec6e7a6ffb08e3363int);
        lemma_fundamental_div_mod_converse(a * a, m, 0x72bf23af7a589fbb742d2d81ca32150255935a678663bc32c2871632c29d0ae1int, b);
    } else if k == 24 {
        assert(0x291cf6d68823e6876e0bcd91ee76273072cf6a8029b7d7bc92cf4deb77bd779cint * 0x291cf6d68823e6876e0bcd91ee76273072cf6a8029b7d7bc92cf4deb77bd779cint == 0xe949a21ffecedd8a6ebeda0253d24770c6475e7105136d20b4e24b8fb4dc862int * 0x73eda753299d7d483339d80809a1d80553bda402fffe5bfeffffffff00000001int + 0x73560252aa0655b25121af06a3b51e3cc631ffb2585a72db5616c57de0ec9eaeint);
        lemma_fundamental_div_mod_converse(a * a, m, 0xe949a21ffecedd8a6ebeda0253d24770c6475e7105136d20b4e24b8fb4dc862int, b);
    } else if k == 25 {
        assert(0x19fe632fd3287390454dc1edc61a1a3c0ba12bb3da64ca5ce32ef844e11a51eint * 0x19fe632fd3287390454dc1edc61a1a3c0ba12bb3da64ca5ce32ef844e11a51eint == 0x5d40fa3da1bdb3e982d8325993408e8d10daae5d0d25fe9f5f6c228be37e8int * 0x73eda753299d7d483339d80809a1d80553bda402fffe5bfeffffffff00000001int + 0x291cf6d68823e6876e0bcd91ee76273072cf6a8029b7d7bc92cf4deb77bd779cint);
        lemma_fundamental_div_mod_converse(a * a, m, 0x5d40fa3da1bdb3e982d8325993408e8d10daae5d0d25fe9f5f6c228be37e8int, b);
    } else if k == 26 {
        assert(0xa0a77a3b1980c0d116168bffbedc11d02c8118402867ddc531a11a0d2d75182int * 0xa0a77a3b1980c0d116168bffbedc11d02c8118402867ddc531a11a0d2d75182int == 0xdea2b6fae4c13adeb5ceea0db4ad434f85d64802013a04dc120eb4fc3de0e6int * 0x73eda753299d7d483339d80809a1d80553bda402fffe5bfeffffffff00000001int + 0x19fe632fd3287390454dc1edc61a1a3c0ba12bb3da64ca5ce32ef844e11a51eint);
        lemma_fundamental_div_mod_converse(a * a, m, 0xdea2b6fae4c13adeb5ceea0db4ad434f85d64802013a04dc120eb4fc3de0e6int, b);
    } else if k == 27 {
        assert(0x23397a9300f8f98bece8ea224f31d25db94f1101b1d7a628e2d0a7869f0319edint * 0x23397a9300f8f98bece8ea224f31d25db94f1101b1d7a628e2d0a7869f0319edint == 0xab3f0119626603c452151d90394c5fe5f63d733517d87cc5933f6a03156d3e7int * 0x73eda753299d7d483339d80809a1d80553bda402fffe5bfeffffffff00000001int + 0xa0a77a3b1980c0d116168bffbedc11d02c8118402867ddc531a11a0d2d75182int);
        lemma_fundamental_div_mod_converse(a * a, m, 0xab3f0119626603c452151d90394c5fe5f63d733517d87cc5933f6a03156d3e7int, b);
    } else if k == 28 {
        assert(0x52dd465e2f09425699e276b571905a7d6558e9e3f6ac7b41d7b688830a4f2089int * 0x52dd465e2f09425699e276b571905a7d6558e9e3f6ac7b41d7b688830a4f2089int == 0x3b3b06a28b2a02bf5a5e6c922e12eda976394d9d1a2eff104b9feb132dad6f64int * 0x73eda753299d7d483339d80809a1d80553bda402fffe5bfeffffffff00000001int + 0x23397a9300f8f98bece8ea224f31d25db94f1101b1d7a628e2d0a7869f0319edint);
        lemma_fundamental_div_mod_converse(a * a, m, 0x3b3b06a28b2a02bf5a5e6c922e12eda976394d9d1a2eff104b9feb132dad6f64int, b);
    } else if k == 29 {
        assert(0xc83ea7744bf1bee8da40c1ef2bb459884d37b826214abc6474650359d8e211bint * 0xc83ea7744bf1bee8da40c1ef2bb459884d37b826214abc6474650359d8e211bint == 0x159e2bf6a5370d130211f45b03eac7387e0a96213c5fb1b817c887ed1ecd850int * 0x73eda753299d7d483339d80809a1d80553bda402fffe5bfeffffffff00000001int + 0x52dd465e2f09425699e276b571905a7d6558e9e3f6ac7b41d7b688830a4f2089int);
        lemma_fundamental_div_mod_converse(a * a, m, 0x159e2bf6a5370d130211f45b03eac7387e0a96213c5fb1b817c887ed1ecd850int, b);
    } else if k == 30 {
        assert(0x2c6d4e4511657e1e1339a815da8b398fed3a181fabb30adc694341f608c9dd56int * 0x2c6d4e4511657e1e1339a815da8b398fed3a181fabb30adc694341f608c9dd56int == 0x110691833f37afdebb20c8e046d2b3e6decaddee100e33d6994171de12db77c9int * 0x73eda753299d7d483339d80809a1d80553bda402fffe5bfeffffffff00000001int + 0xc83ea7744bf1bee8da40c1ef2bb459884d37b826214abc6474650359d8e211bint);
        lemma_fundamental_div_mod_converse(a * a, m, 0x110691833f37afdebb20c8e046d2b3e6decaddee100e33d6994171de12db77c9int, b);
    } else {
        assert(0x4b5371495990693fad1715b02e5713b5f070bb00e28a193d63e7cb4906ffc93fint * 0x4b5371495990693fad1715b02e5713b5f070bb00e28a193d63e7cb4906ffc93fint == 0x30f1ab1595c2d2f989fb50964a7330fca73e88614457bfab9c968b2474ec202bint * 0x73eda753299d7d483339d80809a1d80553bda402fffe5bfeffffffff00000001int + 0x2c6d4e4511657e1e1339a815da8b398fed3a181fabb30adc694341f608c9dd56int);
        lemma_fundamental_div_mod_converse(a * a, m, 0x30f1ab1595c2d2f989fb50964a7330fca73e88614457bfab9c968b2474ec202bint, b);
    }
}

/// The `2^j`-th power of the root of scale `k` is the root of scale `k - j`.
pub proof fn lemma_root_pow2(k: nat, j: nat)
    requires
        j <= k < 32,
    ensures
        fr_pow(root_of_unity(k), pow2(j)) == root_of_unity((k - j) as nat),
    decreases j,
{
    let g = root_of_unity(k);
    lemma_root_is_fr(k);
    lemma_root_is_fr((k - j) as nat);
    if j == 0 {
        vstd::arithmetic::power2::lemma2_to64();
        lemma_fr_pow_one(g);
        lemma_reduce_small(g as int);
    } else {
        lemma_root_pow2(k, (j - 1) as nat);
        lemma_pow2_unfold(j);
        let h = root_of_unity((k - j + 1) as nat);
        lemma_root_is_fr((k - j + 1) as nat);
        lemma_fr_pow_mul(g, pow2((j - 1) as nat), 2);
        assert(pow2((j - 1) as nat) * 2 == pow2(j));
        lemma_fr_pow_zero(h);
        lemma_fr_pow_succ(h, 0);
        lemma_fr_pow_succ(h, 1);
        lemma_reduce_small(h as int);
        assert(fr_mul(1, h) == h);
        lemma_root_squares((k - j + 1) as nat);
    }
}

/// The root of scale `k` has order `2^k`: that power is one, and for
/// `k >= 1` the power `2^(k-1)` is minus one, so no lower power of two is one.
pub proof fn lemma_root_order(k: nat)
    requires
        k < 32,
    ensures
        fr_pow(root_of_unity(k), pow2(k)) == 1,
        k >= 1 ==> fr_pow(root_of_unity(k), pow2((k - 1) as nat)) == modulus() - 1,
{
    lemma_root_pow2(k, k);
    assert(root_of_unity(0) == 1) by {
        reveal(root_of_unity);
    }
    if k >= 1 {
        lemma_root_pow2(k, (k - 1) as nat);
        assert(root_of_unity(1) == modulus() - 1) by {
            reveal(root_of_unity);
        }
    }
}

/// An odd power of minus one is minus one.
pub proof fn lemma_minus_one_odd_power(c: nat)
    ensures
        fr_pow((modulus() - 1) as nat, 2 * c + 1) == modulus() - 1,
    decreases c,
{
    let m1 = (modulus() - 1) as nat;
    if c == 0 {
        lemma_fr_pow_one(m1);
        lemma_reduce_small(m1 as int);
    } else {
        lemma_minus_one_odd_power((c - 1) as nat);
        lemma_fr_pow_succ(m1, (2 * c - 1) as nat);
        lemma_fr_pow_succ(m1, (2 * c) as nat);
        let r = modulus() as int;
        lemma_mul_c(m1, m1, r - 1, r - 1);
        assert((r - 1) * (r - 1) == 1 + (r - 2) * r) by (nonlinear_arith);
        lemma_reduce_small(1);
        lemma_cong_eq(fr_mul(m1, m1), 1, (r - 1) * (r - 1), 1, r - 2);
        assert(fr_mul(1, m1) == m1);
    }
}

/// No positive power of the root of scale `k` below `2^k` is one.
pub proof fn lemma_root_no_lower_order(k: nat, j: nat)
    requires
        k < 32,
        0 < j < pow2(k),
    ensures
        fr_pow(root_of_unity(k), j) != 1,
    decreases k,
{
    let g = root_of_unity(k);
    lemma_root_is_fr(k);
    if k == 0 {
        vstd::arithmetic::power2::lemma2_to64();
    } else {
        lemma_pow2_unfold(k);
        let half = pow2((k - 1) as nat);
        if j % 2 == 0 {
            let j2 = j / 2;
            lemma_root_no_lower_order((k - 1) as nat, j2);
            lemma_fr_pow_mul(g, 2, j2);
            lemma_fr_pow_zero(g);
            lemma_fr_pow_succ(g, 0);
            lemma_fr_pow_succ(g, 1);
            lemma_reduce_small(g as int);
            assert(fr_mul(1, g) == g);
            lemma_root_squares(k);
        } else {
            if fr_pow(g, j) == 1 {
                lemma_fr_pow_mul(g, j, half);
                lemma_fr_pow_mul(g, half, j);
                assert(j * half == half * j) by (nonlinear_arith);
                lemma_fr_pow_of_one(half);
                lemma_root_order(k);
                lemma_minus_one_odd_power(j / 2);
            }
        }
    }
}

} // verus!
